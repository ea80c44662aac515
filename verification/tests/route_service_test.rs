use cvrp::domain::stop::Stop;
use cvrp::domain::vehicle::Vehicle;
use cvrp::errors::{AssignmentError, VehicleOverloadError};
use cvrp::services::distance_service::DistanceMatrix;
use cvrp::services::route_service::RouteService;

fn stops() -> Vec<Stop> {
    vec![
        Stop::new(0, 5),
        Stop::new(1, 10),
        Stop::new(2, 10),
        Stop::new(3, 10),
        Stop::new(4, 10),
    ]
}

fn vehicles(count: u32) -> Vec<Vehicle> {
    (0..count).map(|id| Vehicle::new(id, 100)).collect()
}

fn distances() -> DistanceMatrix {
    let table: [(u32, u32, u64); 10] = [
        (0, 1, 20),
        (0, 2, 10),
        (0, 3, 30),
        (0, 4, 50),
        (1, 2, 25),
        (1, 3, 15),
        (1, 4, 40),
        (2, 3, 35),
        (2, 4, 45),
        (3, 4, 12),
    ];
    let mut matrix = DistanceMatrix::new();
    for (from, to, distance) in table {
        matrix.insert(from, to, distance);
        matrix.insert(to, from, distance);
    }
    for id in 0..5 {
        matrix.insert(id, id, 0);
    }
    matrix
}

#[test]
fn route_service_started() {
    let route_service = RouteService::new(vehicles(2), &distances(), &stops());

    assert_eq!(route_service.get_available_stops().len(), 5);
    assert_eq!(route_service.get_all_routes().len(), 2);
    assert_eq!(route_service.get_vehicles().len(), 2);
}

#[test]
fn can_assign_stop_to_route() {
    let mut route_service = RouteService::new(vehicles(1), &distances(), &stops());

    route_service.assign_stop_to_route(0, 0).unwrap();

    assert_eq!(route_service.get_route(0).unwrap().stops.len(), 1)
}

#[test]
fn can_get_nearest_stop() {
    let mut route_service = RouteService::new(vehicles(1), &distances(), &stops());
    route_service.assign_stop_to_route(0, 0).unwrap();

    assert_eq!(route_service.get_nearest_stop(0).unwrap().get_id(), 2);
}

#[test]
fn can_get_k_nearest_stops() {
    let mut route_service = RouteService::new(vehicles(1), &distances(), &stops());
    route_service.assign_stop_to_route(0, 0).unwrap();

    let k_nearest = route_service.get_k_nearest_stops(0, 3).unwrap();

    assert_eq!(k_nearest.len(), 3);

    assert_eq!(k_nearest[0].get_id(), 2);
    assert_eq!(k_nearest[1].get_id(), 1);
    assert_eq!(k_nearest[2].get_id(), 3);
}

#[test]
fn assignment_appends_over_the_distance_from_the_last_stop() {
    let mut route_service = RouteService::new(vehicles(1), &distances(), &stops());

    route_service.assign_stop_to_route(0, 0).unwrap();
    route_service.assign_stop_to_route(0, 3).unwrap();
    route_service.assign_stop_to_route(0, 4).unwrap();

    let route = route_service.get_route(0).unwrap();
    let ids: Vec<u32> = route.stops.iter().map(|stop| stop.id).collect();
    assert_eq!(ids, vec![0, 3, 4]);
    assert_eq!(route.total_distance(), 42);
    assert_eq!(route.vehicle.get_usage(), 25);
    let pool: Vec<u32> = route_service.get_available_stops().iter().map(|stop| stop.id).collect();
    assert_eq!(pool, vec![1, 2]);
    assert_eq!(route_service.total_distance(), 42);
}

#[test]
fn assignment_fails_for_an_unknown_vehicle() {
    let mut route_service = RouteService::new(vehicles(1), &distances(), &stops());

    assert_eq!(route_service.assign_stop_to_route(1, 0), Err(AssignmentError::UnknownVehicle));
    assert_eq!(route_service.assign_stop_to_route(1, 9), Err(AssignmentError::UnknownVehicle));

    assert_eq!(route_service.get_available_stops().len(), 5);
}

#[test]
fn assignment_fails_for_a_stop_that_is_not_in_the_pool() {
    let mut route_service = RouteService::new(vehicles(2), &distances(), &stops());
    route_service.assign_stop_to_route(0, 0).unwrap();

    assert_eq!(route_service.assign_stop_to_route(1, 0), Err(AssignmentError::StopNotAvailable));
    assert_eq!(route_service.assign_stop_to_route(1, 9), Err(AssignmentError::StopNotAvailable));

    assert_eq!(route_service.get_route(1).unwrap().stops.len(), 0);
    assert_eq!(route_service.get_route(0).unwrap().stops.len(), 1);
    assert_eq!(route_service.get_available_stops().len(), 4);
}

#[test]
fn assignment_fails_without_a_distance() {
    let mut matrix = DistanceMatrix::new();
    matrix.insert(0, 1, 20);
    let mut route_service = RouteService::new(vehicles(1), &matrix, &stops());
    route_service.assign_stop_to_route(0, 0).unwrap();

    assert_eq!(route_service.assign_stop_to_route(0, 2), Err(AssignmentError::UnknownDistance));

    assert_eq!(route_service.get_route(0).unwrap().stops.len(), 1);
    assert_eq!(route_service.get_available_stops().len(), 4);
    assert_eq!(route_service.assign_stop_to_route(0, 1), Ok(()));
}

#[test]
fn assignment_fails_for_a_full_vehicle() {
    let fleet = vec![Vehicle::new(8, 20)];
    let mut route_service = RouteService::new(fleet, &distances(), &stops());
    route_service.assign_stop_to_route(8, 0).unwrap();
    route_service.assign_stop_to_route(8, 1).unwrap();

    let refused = route_service.assign_stop_to_route(8, 2);

    assert_eq!(
        refused,
        Err(AssignmentError::VehicleOverload(VehicleOverloadError { vehicle_id: 8, load: 10 }))
    );
    let route = route_service.get_route(8).unwrap();
    assert_eq!(route.stops.len(), 2);
    assert_eq!(route.vehicle.get_usage(), 15);
    assert_eq!(route.total_distance(), 20);
    assert_eq!(route_service.get_available_stops().len(), 3);
}

#[test]
fn nearest_stop_is_absent_for_an_empty_route() {
    let route_service = RouteService::new(vehicles(1), &distances(), &stops());

    assert!(route_service.get_nearest_stop(0).is_none());
    assert!(route_service.get_nearest_stop(5).is_none());
    assert_eq!(route_service.get_k_nearest_stops(0, 3), Some(vec![]));
    assert_eq!(route_service.get_k_nearest_stops(5, 3), None);
}

#[test]
fn nearest_stop_leaves_out_what_the_vehicle_cannot_take() {
    let all = vec![Stop::new(0, 5), Stop::new(1, 10), Stop::new(2, 16), Stop::new(3, 15)];
    let mut route_service = RouteService::new(vec![Vehicle::new(0, 20)], &distances(), &all);
    route_service.assign_stop_to_route(0, 0).unwrap();

    assert_eq!(route_service.get_nearest_stop(0).unwrap().get_id(), 1);
    let near: Vec<u32> =
        route_service.get_k_nearest_stops(0, 4).unwrap().iter().map(|stop| stop.id).collect();
    assert_eq!(near, vec![1, 3]);
}

#[test]
fn nearest_stops_break_ties_by_identity() {
    let mut matrix = DistanceMatrix::new();
    for to in 1..5 {
        matrix.insert(0, to, if to == 2 { 9 } else { 7 });
    }
    let all = vec![
        Stop::new(0, 1),
        Stop::new(4, 1),
        Stop::new(3, 1),
        Stop::new(2, 1),
        Stop::new(1, 1),
    ];
    let mut route_service = RouteService::new(vehicles(1), &matrix, &all);
    route_service.assign_stop_to_route(0, 0).unwrap();

    assert_eq!(route_service.get_nearest_stop(0).unwrap().get_id(), 1);
    let near: Vec<u32> =
        route_service.get_k_nearest_stops(0, 9).unwrap().iter().map(|stop| stop.id).collect();
    assert_eq!(near, vec![1, 3, 4, 2]);
    assert_eq!(route_service.get_k_nearest_stops(0, 0), Some(vec![]));
    let first = route_service.get_k_nearest_stops(0, 1).unwrap();
    assert_eq!(first, vec![*route_service.get_nearest_stop(0).unwrap()]);
}

#[test]
fn has_available_stop_asks_for_a_vehicle_with_room() {
    let fleet = vec![Vehicle::new(0, 14), Vehicle::new(1, 5)];
    let mut route_service = RouteService::new(fleet, &distances(), &stops());
    assert!(route_service.has_available_stop());

    route_service.assign_stop_to_route(0, 1).unwrap();
    assert!(route_service.has_available_stop());

    route_service.assign_stop_to_route(1, 0).unwrap();
    assert!(!route_service.has_available_stop());
    assert_eq!(route_service.get_available_stops().len(), 3);
}

#[test]
fn starting_points_go_to_empty_routes_in_order() {
    let fleet = vec![Vehicle::new(0, 100), Vehicle::new(1, 7), Vehicle::new(2, 3), Vehicle::new(3, 10)];
    let all = vec![Stop::new(0, 8), Stop::new(1, 10), Stop::new(2, 5), Stop::new(3, 10)];
    let mut route_service = RouteService::new(fleet, &distances(), &all);

    route_service.assign_starting_points();

    let firsts: Vec<Vec<u32>> = route_service
        .get_all_routes()
        .iter()
        .map(|route| route.stops.iter().map(|stop| stop.id).collect())
        .collect();
    assert_eq!(firsts, vec![vec![0], vec![2], vec![], vec![1]]);
    assert_eq!(route_service.total_distance(), 0);
    let pool: Vec<u32> = route_service.get_available_stops().iter().map(|stop| stop.id).collect();
    assert_eq!(pool, vec![3]);
    let loads: Vec<u32> =
        route_service.get_vehicles().iter().map(|vehicle| vehicle.get_usage()).collect();
    assert_eq!(loads, vec![8, 5, 0, 10]);

    route_service.assign_starting_points();
    assert_eq!(route_service.get_available_stops().len(), 1);
}

#[test]
fn input_is_valid_without_shared_identities() {
    assert!(RouteService::is_valid_input(&vehicles(3), &stops()));
    assert!(RouteService::is_valid_input(&Vec::new(), &Vec::new()));

    let mut twice = stops();
    twice.push(Stop::new(2, 1));
    assert!(!RouteService::is_valid_input(&vehicles(3), &twice));

    let mut fleet = vehicles(3);
    fleet.push(Vehicle::new(0, 5));
    assert!(!RouteService::is_valid_input(&fleet, &stops()));
}
