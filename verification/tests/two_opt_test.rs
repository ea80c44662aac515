use cvrp::domain::route::Route;
use cvrp::domain::stop::Stop;
use cvrp::domain::vehicle::Vehicle;
use cvrp::local_search::two_opt::TwoOptSearcher;
use cvrp::services::distance_service::{DistanceMatrix, DistanceService};
use cvrp::stop_swapper::path::Path;
use cvrp::stop_swapper::StopSwapper;

/// Distances in tenths of a unit.
fn crossing_distances() -> DistanceMatrix {
    let table: [(u32, u32, u64); 10] = [
        (0, 1, 50),
        (0, 2, 20),
        (0, 3, 45),
        (0, 4, 40),
        (1, 2, 40),
        (1, 3, 30),
        (1, 4, 20),
        (2, 3, 20),
        (2, 4, 30),
        (3, 4, 40),
    ];
    let mut matrix = DistanceMatrix::new();
    for (from, to, distance) in table {
        matrix.insert(from, to, distance);
        matrix.insert(to, from, distance);
    }
    for id in 0..5 {
        matrix.insert(id, id, 0);
    }
    matrix
}

fn distance_service() -> DistanceService {
    DistanceService::new(crossing_distances())
}

fn stops_with_crossings() -> Vec<Stop> {
    [0, 1, 3, 2, 4, 0].iter().map(|id| Stop::new(*id, 10)).collect()
}

fn route_along(stops: &[Stop], distance_service: &DistanceService) -> Route {
    let mut route = Route::new(Vehicle::new(0, 100));
    route.add_stop(stops[0], 0).unwrap();
    for (index, stop) in stops.iter().enumerate().skip(1) {
        route
            .add_stop(*stop, distance_service.get_distance(&stops[index - 1], stop).unwrap())
            .unwrap();
    }
    route
}

fn ids(route: &Route) -> Vec<u32> {
    route.stops.iter().map(|stop| stop.id).collect()
}

#[test]
fn can_calculate_insertion_cost() {
    let path = Path::from_stop_index(&stops_with_crossings(), 1, &distance_service()).unwrap();

    assert_eq!(path.cost, 80);
    assert_eq!(path.prev.index, 0);
    assert_eq!(path.current.index, 1);
    assert_eq!(path.next.index, 2);
    assert_eq!(path.current.stop.id, 1);
}

#[test]
fn path_is_absent_without_a_distance() {
    let mut matrix = DistanceMatrix::new();
    matrix.insert(0, 1, 5);
    let stops = stops_with_crossings();

    assert!(Path::from_stop_index(&stops, 1, &DistanceService::new(matrix)).is_none());
}

#[test]
fn can_calculate_path_swap_cost() {
    let stops = stops_with_crossings();
    let swapper = StopSwapper::new(stops.clone(), &crossing_distances());
    let path1 = Path::from_stop_index(&stops, 1, &swapper.distance_service).unwrap();
    let path2 = Path::from_stop_index(&stops, 3, &swapper.distance_service).unwrap();

    let swap_cost = swapper.calculate_swap_cost(&path1, &path2).unwrap();

    assert_eq!(swap_cost, 90);
    assert_eq!(swap_cost as i128 - (path1.cost + path2.cost) as i128, -40);
}

#[test]
fn can_calculate_path_swap_cost_of_consecutive_swaps() {
    let stops = stops_with_crossings();
    let swapper = StopSwapper::new(stops.clone(), &crossing_distances());
    let path1 = Path::from_stop_index(&stops, 1, &swapper.distance_service).unwrap();
    let path2 = Path::from_stop_index(&stops, 2, &swapper.distance_service).unwrap();

    let current_cost = (path1.cost + path2.cost) as i128;
    let swap_cost1 = swapper.calculate_swap_cost(&path1, &path2).unwrap() as i128 - current_cost;
    let swap_cost2 = swapper.calculate_swap_cost(&path2, &path1).unwrap() as i128 - current_cost;

    assert_eq!(swap_cost1, -45);
    assert_eq!(swap_cost2, -45);
}

#[test]
fn swap_cost_is_absent_without_a_distance() {
    let stops = stops_with_crossings();
    let mut matrix = DistanceMatrix::new();
    for (from, to) in [(0, 1), (1, 3), (3, 2), (2, 4), (4, 0)] {
        matrix.insert(from, to, 1);
    }
    let swapper = StopSwapper::new(stops.clone(), &matrix);
    let path1 = Path::from_stop_index(&stops, 1, &swapper.distance_service).unwrap();
    let path2 = Path::from_stop_index(&stops, 3, &swapper.distance_service).unwrap();

    assert_eq!(swapper.calculate_swap_cost(&path1, &path2), None);
    assert_eq!(swapper.get_minimum_swap_cost(&path1, &stops), None);
}

#[test]
fn can_get_the_minimum_swap_cost() {
    let stops = stops_with_crossings();
    let swapper = StopSwapper::new(stops.clone(), &crossing_distances());
    let path = Path::from_stop_index(&stops, 1, &swapper.distance_service).unwrap();

    let swap_cost = swapper.get_minimum_swap_cost(&path, &stops).unwrap();

    assert_eq!(swap_cost.0, 3);
    assert_eq!(swap_cost.1, 90);
}

#[test]
fn minimum_swap_cost_needs_a_candidate() {
    let stops = stops_with_crossings();
    let swapper = StopSwapper::new(stops.clone(), &crossing_distances());
    let path = Path::from_stop_index(&stops, 3, &swapper.distance_service).unwrap();

    assert_eq!(swapper.get_minimum_swap_cost(&path, &stops), None);
    assert_eq!(swapper.get_minimum_swap_cost(&path, &stops[..3]), None);
}

#[test]
fn minimum_swap_cost_takes_the_first_of_equal_candidates() {
    let stops: Vec<Stop> = (0..6).map(|id| Stop::new(id, 1)).collect();
    let mut matrix = DistanceMatrix::new();
    for from in 0..6 {
        for to in 0..6 {
            matrix.insert(from, to, 1);
        }
    }
    let swapper = StopSwapper::new(stops.clone(), &matrix);
    let path = Path::from_stop_index(&stops, 1, &swapper.distance_service).unwrap();

    assert_eq!(swapper.get_minimum_swap_cost(&path, &stops), Some((3, 4)));
}

#[test]
fn can_optimize_route() {
    let distance_service = distance_service();
    let stops_with_crossings = stops_with_crossings();
    let mut route = route_along(&stops_with_crossings, &distance_service);
    let searcher = TwoOptSearcher::new(stops_with_crossings, &crossing_distances());

    searcher.run(&mut route).unwrap();

    assert_eq!(route.stops.get(0).unwrap().id, 0);
    assert_eq!(route.stops.get(1).unwrap().id, 2);
    assert_eq!(route.stops.get(2).unwrap().id, 3);
    assert_eq!(route.stops.get(3).unwrap().id, 1);
    assert_eq!(route.stops.get(4).unwrap().id, 4);
    assert_eq!(route.stops.get(5).unwrap().id, 0);
}

#[test]
fn pass_shortens_the_route_and_keeps_its_account() {
    let distance_service = distance_service();
    let stops = stops_with_crossings();
    let mut route = route_along(&stops, &distance_service);
    assert_eq!(route.total_distance(), 170);
    let searcher = TwoOptSearcher::new(stops, &crossing_distances());

    assert_eq!(searcher.run(&mut route), Some(()));

    assert_eq!(route.total_distance(), 130);
    assert_eq!(distance_service.get_path_length(&route.stops), Some(130));
    assert!(route.is_measured_by(&distance_service));
    assert_eq!(route.vehicle.get_usage(), 60);
}

#[test]
fn second_pass_finds_nothing_more() {
    let distance_service = distance_service();
    let stops = stops_with_crossings();
    let mut route = route_along(&stops, &distance_service);
    let searcher = TwoOptSearcher::new(stops, &crossing_distances());
    searcher.run(&mut route).unwrap();

    assert_eq!(searcher.run(&mut route), Some(()));

    assert_eq!(ids(&route), vec![0, 2, 3, 1, 4, 0]);
    assert_eq!(route.total_distance(), 130);
}

#[test]
fn pass_leaves_a_tie_as_it_is() {
    let stops: Vec<Stop> = (0..6).map(|id| Stop::new(id, 1)).collect();
    let mut matrix = DistanceMatrix::new();
    for from in 0..6 {
        for to in 0..6 {
            matrix.insert(from, to, 1);
        }
    }
    let mut route = route_along(&stops, &DistanceService::new(matrix.clone()));
    let searcher = TwoOptSearcher::new(stops, &matrix);

    assert_eq!(searcher.run(&mut route), Some(()));

    assert_eq!(ids(&route), vec![0, 1, 2, 3, 4, 5]);
    assert_eq!(route.total_distance(), 5);
}

#[test]
fn short_routes_stay_as_they_are() {
    let distance_service = distance_service();
    let searcher = TwoOptSearcher::new(stops_with_crossings(), &crossing_distances());
    for len in 0..5 {
        let stops: Vec<Stop> = [1, 3, 2, 4].iter().take(len).map(|id| Stop::new(*id, 1)).collect();
        let mut route = Route::new(Vehicle::new(0, 100));
        if len > 0 {
            route = route_along(&stops, &distance_service);
        }
        let before = ids(&route);
        let total = route.total_distance();

        assert_eq!(searcher.run(&mut route), Some(()));

        assert_eq!(ids(&route), before);
        assert_eq!(route.total_distance(), total);
    }
}

#[test]
fn pass_skips_a_position_whose_exchange_cannot_be_costed() {
    let stops = stops_with_crossings();
    let mut matrix = DistanceMatrix::new();
    for (from, to, distance) in [(0, 1, 5), (1, 3, 3), (3, 2, 2), (2, 4, 3), (4, 0, 4)] {
        matrix.insert(from, to, distance);
    }
    let mut route = route_along(&stops, &DistanceService::new(matrix.clone()));
    let searcher = TwoOptSearcher::new(stops, &matrix);

    assert_eq!(searcher.run(&mut route), Some(()));

    assert_eq!(ids(&route), vec![0, 1, 3, 2, 4, 0]);
    assert_eq!(route.total_distance(), 17);
}

#[test]
fn pass_scans_a_route_that_is_not_measured() {
    let stops = stops_with_crossings();
    let mut route = Route::new(Vehicle::new(0, 100));
    for stop in &stops {
        route.add_stop(*stop, 10).unwrap();
    }
    let searcher = TwoOptSearcher::new(stops, &crossing_distances());

    assert_eq!(searcher.run(&mut route), Some(()));

    assert_eq!(ids(&route), vec![0, 2, 3, 1, 4, 0]);
    assert_eq!(route.total_distance(), 20);
    assert!(!route.is_measured_by(&distance_service()));
}

#[test]
fn pass_lowers_the_recorded_distance_no_further_than_zero() {
    let stops = stops_with_crossings();
    let mut route = Route::new(Vehicle::new(0, 100));
    for (index, stop) in stops.iter().enumerate() {
        route.add_stop(*stop, if index == 1 { 3 } else { 0 }).unwrap();
    }
    let searcher = TwoOptSearcher::new(stops, &crossing_distances());

    assert_eq!(searcher.run(&mut route), Some(()));

    assert_eq!(ids(&route), vec![0, 2, 3, 1, 4, 0]);
    assert_eq!(route.total_distance(), 0);
}

#[test]
fn pass_leaves_a_short_route_with_a_wrong_distance_as_it_is() {
    let mut matrix = DistanceMatrix::new();
    matrix.insert(0, 1, 5);
    let mut route = Route::new(Vehicle::new(0, 100));
    route.add_stop(Stop::new(0, 1), 0).unwrap();
    route.add_stop(Stop::new(1, 1), 0).unwrap();
    let searcher = TwoOptSearcher::new(Vec::new(), &matrix);

    assert_eq!(searcher.run(&mut route), Some(()));
    assert_eq!(searcher.search(&mut route), Some(()));

    assert_eq!(ids(&route), vec![0, 1]);
    assert_eq!(route.total_distance(), 0);
}

fn wide_distances() -> DistanceMatrix {
    let mut matrix = DistanceMatrix::new();
    for from in 0..8u32 {
        for to in 0..8u32 {
            matrix.insert(from, to, 10 * (from.abs_diff(to) as u64));
        }
    }
    matrix
}

#[test]
fn search_ends_where_a_pass_changes_nothing() {
    let stops: Vec<Stop> = [0, 1, 3, 5, 2, 6, 4, 7].iter().map(|id| Stop::new(*id, 1)).collect();
    let distance_service = DistanceService::new(wide_distances());
    let mut once = route_along(&stops, &distance_service);
    let mut route = route_along(&stops, &distance_service);
    assert_eq!(route.total_distance(), 170);
    let searcher = TwoOptSearcher::new(stops, &wide_distances());

    assert_eq!(searcher.run(&mut once), Some(()));
    assert_eq!(searcher.search(&mut route), Some(()));

    assert_eq!(ids(&once), vec![0, 1, 6, 5, 2, 3, 4, 7]);
    assert_eq!(once.total_distance(), 150);
    assert_eq!(ids(&route), vec![0, 1, 2, 3, 4, 5, 6, 7]);
    assert_eq!(route.total_distance(), 70);
    assert!(route.is_measured_by(&distance_service));
    let mut again = route.clone();
    assert_eq!(searcher.run(&mut again), Some(()));
    assert_eq!(ids(&again), ids(&route));
}

#[test]
fn search_scans_a_route_that_is_not_measured() {
    let stops = stops_with_crossings();
    let mut route = Route::new(Vehicle::new(0, 100));
    for stop in &stops {
        route.add_stop(*stop, 10).unwrap();
    }
    let searcher = TwoOptSearcher::new(stops, &crossing_distances());

    assert_eq!(searcher.search(&mut route), Some(()));

    assert_eq!(ids(&route), vec![0, 2, 3, 1, 4, 0]);
    assert_eq!(route.total_distance(), 20);
}

#[test]
fn pass_goes_on_behind_a_position_without_a_distance() {
    let stops: Vec<Stop> = [0, 1, 2, 3, 5, 6, 4, 7].iter().map(|id| Stop::new(*id, 1)).collect();
    let mut matrix = DistanceMatrix::new();
    for from in 0..8u32 {
        for to in 0..8u32 {
            if (from, to) != (0, 1) {
                matrix.insert(from, to, 10 * (from.abs_diff(to) as u64));
            }
        }
    }
    let distance_service = DistanceService::new(matrix.clone());
    let mut route = Route::new(Vehicle::new(0, 100));
    route.add_stop(stops[0], 0).unwrap();
    route.add_stop(stops[1], 10).unwrap();
    for index in 2..stops.len() {
        let distance = distance_service.get_distance(&stops[index - 1], &stops[index]).unwrap();
        route.add_stop(stops[index], distance).unwrap();
    }
    assert_eq!(route.total_distance(), 110);
    let searcher = TwoOptSearcher::new(stops, &matrix);

    assert_eq!(searcher.run(&mut route), Some(()));

    assert_eq!(ids(&route), vec![0, 1, 2, 3, 4, 6, 5, 7]);
    assert_eq!(route.total_distance(), 90);
}

#[test]
fn search_of_the_crossing_route_needs_one_pass() {
    let distance_service = distance_service();
    let stops = stops_with_crossings();
    let mut route = route_along(&stops, &distance_service);
    let searcher = TwoOptSearcher::new(stops, &crossing_distances());

    assert_eq!(searcher.search(&mut route), Some(()));

    assert_eq!(ids(&route), vec![0, 2, 3, 1, 4, 0]);
    assert_eq!(route.total_distance(), 130);
}
