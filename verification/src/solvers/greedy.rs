use std::collections::HashMap;
use vstd::prelude::*;
use crate::domain::route::Route;
use crate::domain::stop::{Stop, stop_ids};
use crate::domain::vehicle::Vehicle;
use crate::services::distance_service::{DistanceMatrix, covers};
use crate::services::plan::{Plan, fleet_ids, is_next_candidate};
use crate::services::plan_laws::lemma_first_index;
use crate::services::route_service::{RouteService, empty_route, ids_of};
use crate::solvers::solver::{Solution, construct_solutions, get_all_vehicle_ids, is_solution_of};

verus! {

/// Builds routes by giving each vehicle in turn the nearest stop that it
/// can take.
pub struct GreedySolver {
    solution: Solution,
    route_service: RouteService,
}

impl GreedySolver {
    /// The routes and the pool as they are now.
    pub closed spec fn plan(&self) -> Plan {
        self.route_service.plan()
    }

    /// All stops that the solver was made for.
    pub closed spec fn stops(&self) -> Seq<Stop> {
        self.route_service.stops()
    }

    /// The distances by which the solver measures.
    pub closed spec fn distances(&self) -> Map<(u32, u32), u64> {
        self.route_service.distances()
    }

    /// The solution as it was last constructed.
    pub closed spec fn solution(&self) -> Map<u32, Route> {
        self.solution@
    }

    /// See [`Plan::wf`].
    pub open spec fn wf(&self) -> bool {
        self.plan().wf(self.distances(), self.stops())
    }

    /// A solver for `vehicles` and `stops`, with every stop in the pool
    /// and an empty solution. It is well-formed if no two stops and no two
    /// vehicles share an identity.
    pub fn new(vehicles: Vec<Vehicle>, distances: &DistanceMatrix, stops: &Vec<Stop>) -> (solver:
        GreedySolver)
        ensures
            solver.stops() == stops@,
            solver.distances() == distances@,
            solver.plan().pool == stops@,
            solver.plan().routes == vehicles@.map_values(|vehicle: Vehicle| empty_route(vehicle)),
            solver.solution() == Map::<u32, Route>::empty(),
            stop_ids(stops@).no_duplicates() && ids_of(vehicles@).no_duplicates() ==> solver.wf(),
    {
        GreedySolver {
            solution: HashMap::new(),
            route_service: RouteService::new(vehicles, distances, stops),
        }
    }

    /// One round: every vehicle in turn takes the nearest stop that it
    /// can take; one that can take none is passed over.
    fn construct_routes_in_parallel(route_service: &mut RouteService, vehicle_ids: &Vec<u32>)
        requires
            old(route_service).wf(),
            vehicle_ids@ == fleet_ids(old(route_service).plan().routes),
        ensures
            final(route_service).wf(),
            final(route_service).stops() == old(route_service).stops(),
            final(route_service).distances() == old(route_service).distances(),
            final(route_service).plan() == old(route_service).plan().visited(
                old(route_service).distances(),
                old(route_service).plan().routes.len(),
            ),
    {
        let ghost distances = route_service.distances();
        let mut v: usize = 0;
        while v < vehicle_ids.len()
            invariant
                route_service.wf(),
                route_service.stops() == old(route_service).stops(),
                route_service.distances() == distances,
                distances == old(route_service).distances(),
                vehicle_ids@ == fleet_ids(route_service.plan().routes),
                vehicle_ids@.len() == old(route_service).plan().routes.len(),
                v <= vehicle_ids@.len(),
                route_service.plan() == old(route_service).plan().visited(distances, v as nat),
            decreases vehicle_ids@.len() - v,
        {
            let ghost before = route_service.plan();
            let vehicle_id = vehicle_ids[v];
            proof {
                lemma_first_index(vehicle_ids@, vehicle_id, v as int);
            }
            let stop_id = match route_service.get_nearest_stop(vehicle_id) {
                None => {
                    v = v + 1;
                    continue ;
                },
                Some(stop) => stop.get_id(),
            };
            proof {
                let p = before.nearest(distances, v as int).unwrap();
                assert(is_next_candidate(
                    before.routes[v as int],
                    distances,
                    before.pool,
                    None,
                    before.pool[p],
                ));
                assert(stop_ids(before.pool)[p] == stop_id);
                lemma_first_index(stop_ids(before.pool), stop_id, p);
                assert(fleet_ids(before.assign(distances, v as int, p).routes)
                    =~= vehicle_ids@);
            }
            route_service.assign_stop_to_route(vehicle_id, stop_id).unwrap();
            v = v + 1;
        }
    }

    /// Rounds of construction until the pool holds no stop that a vehicle
    /// could take on board, or a round places none.
    fn construct_all_routes(route_service: &mut RouteService)
        requires
            old(route_service).wf(),
        ensures
            final(route_service).wf(),
            final(route_service).stops() == old(route_service).stops(),
            final(route_service).distances() == old(route_service).distances(),
            final(route_service).plan() == old(route_service).plan().constructed(
                old(route_service).distances(),
            ),
    {
        let ghost distances = route_service.distances();
        let mut settled = false;
        while !settled
            invariant
                route_service.wf(),
                route_service.stops() == old(route_service).stops(),
                route_service.distances() == distances,
                distances == old(route_service).distances(),
                old(route_service).plan().constructed(distances) == if settled {
                    route_service.plan()
                } else {
                    route_service.plan().constructed(distances)
                },
            decreases route_service.plan().pool.len(), if settled { 0int } else { 1int },
        {
            if !route_service.has_available_stop() {
                settled = true;
            } else {
                let remaining = route_service.get_available_stops().len();
                let vehicle_ids = get_all_vehicle_ids(route_service);
                proof {
                    let plan = route_service.plan();
                    plan.lemma_visited_shrinks(distances, plan.routes.len());
                }
                Self::construct_routes_in_parallel(route_service, &vehicle_ids);
                if route_service.get_available_stops().len() >= remaining {
                    settled = true;
                }
            }
        }
    }

    /// Constructs the routes: every route gets its starting point, then
    /// rounds of construction follow until the pool holds no stop that a
    /// vehicle could take on board, or a round places none. The routes
    /// then stand in the solution.
    pub fn solve(&mut self)
        requires
            old(self).wf(),
        ensures
            final(self).wf(),
            final(self).stops() == old(self).stops(),
            final(self).distances() == old(self).distances(),
            final(self).plan() == old(self).plan().started(
                old(self).distances(),
                old(self).plan().routes.len(),
            ).constructed(old(self).distances()),
            final(self).plan().grows_from(old(self).plan()),
            final(self).plan().is_started(),
            !final(self).plan().has_available_stop() || final(self).plan().stalled(
                final(self).distances(),
            ),
            covers(final(self).distances(), final(self).stops()) ==> !final(self).plan().has_available_stop(),
            is_solution_of(final(self).solution(), final(self).plan()),
    {
        let ghost start = self.plan();
        self.route_service.assign_starting_points();
        let ghost started = self.plan();
        Self::construct_all_routes(&mut self.route_service);
        proof {
            start.lemma_started_grows(self.distances(), start.routes.len());
            started.lemma_constructed_settles(self.distances(), self.stops());
            self.plan().lemma_grows_transitive(started, start);
            start.lemma_started_is_started(self.distances(), start.routes.len());
            self.plan().lemma_grown_is_started(started, start.routes.len() as int);
            if covers(self.distances(), self.stops()) && self.plan().stalled(self.distances()) {
                self.plan().lemma_stalled_is_done(self.distances(), self.stops());
            }
        }
        self.solution = construct_solutions(&self.route_service);
    }

    /// Gives every route without a stop its starting point, as
    /// [`RouteService::assign_starting_points`] does; the first step of
    /// [`GreedySolver::solve`], for a caller that runs the rounds itself.
    pub fn assign_starting_points(&mut self)
        requires
            old(self).wf(),
        ensures
            final(self).wf(),
            final(self).stops() == old(self).stops(),
            final(self).distances() == old(self).distances(),
            final(self).solution() == old(self).solution(),
            final(self).plan() == old(self).plan().started(
                old(self).distances(),
                old(self).plan().routes.len(),
            ),
    {
        self.route_service.assign_starting_points();
    }

    /// One round: every vehicle in turn takes the nearest stop that it
    /// can take; one that can take none is passed over.
    pub fn run_iteration(&mut self)
        requires
            old(self).wf(),
        ensures
            final(self).wf(),
            final(self).stops() == old(self).stops(),
            final(self).distances() == old(self).distances(),
            final(self).solution() == old(self).solution(),
            final(self).plan() == old(self).plan().visited(
                old(self).distances(),
                old(self).plan().routes.len(),
            ),
    {
        let vehicle_ids = get_all_vehicle_ids(&self.route_service);
        Self::construct_routes_in_parallel(&mut self.route_service, &vehicle_ids);
    }

    /// Whether the pool holds no stop that a vehicle could still take on
    /// board.
    pub fn stop_condition_met(&self) -> (met: bool)
        ensures
            met == !self.plan().has_available_stop(),
    {
        !self.route_service.has_available_stop()
    }

    /// The solution as it was last constructed: empty before the first
    /// call of [`GreedySolver::solve`].
    pub fn get_solution(&self) -> (solution: &Solution)
        ensures
            solution@ == self.solution(),
    {
        &self.solution
    }

    /// The service that holds the routes and the pool.
    pub fn get_route_service(&self) -> (route_service: &RouteService)
        ensures
            route_service.plan() == self.plan(),
            route_service.stops() == self.stops(),
            route_service.distances() == self.distances(),
    {
        &self.route_service
    }

    /// The distance recorded for all routes together.
    pub fn solution_total_distance(&self) -> (total: u128)
        requires
            self.wf(),
        ensures
            total == self.plan().total_distance(),
    {
        self.route_service.total_distance()
    }
}

} // verus!
