use std::collections::HashMap;
use vstd::prelude::*;
use crate::domain::route::Route;
use crate::domain::stop::{Stop, stop_ids};
use crate::domain::vehicle::Vehicle;
use crate::random::choose_stop;
use crate::services::distance_service::{DistanceMatrix, covers};
use crate::services::plan::{
    Plan, fleet_ids, is_k_nearest, is_near_construction, is_near_round, is_near_visit,
};
use crate::services::plan_laws::{
    lemma_first_index, lemma_near_construction_step, lemma_near_round_step,
};
use crate::services::route_service::{RouteService, empty_route, ids_of};
use crate::solvers::solver::{Solution, construct_solutions, get_all_vehicle_ids, is_solution_of};

verus! {

/// Builds routes by giving each vehicle in turn one of the stops nearest
/// to it, chosen at random, so that repeated runs give different routes.
pub struct GraspSolver {
    rcl_size: usize,
    solution: Solution,
    route_service: RouteService,
}

impl GraspSolver {
    /// The number of nearest stops among which a vehicle's next stop is
    /// chosen.
    pub closed spec fn rcl_size(&self) -> usize {
        self.rcl_size
    }

    /// The routes and the pool as they are now.
    pub closed spec fn plan(&self) -> Plan {
        self.route_service.plan()
    }

    /// All stops that the solver was made for.
    pub closed spec fn stops(&self) -> Seq<Stop> {
        self.route_service.stops()
    }

    /// The distances by which the solver measures.
    pub closed spec fn distances(&self) -> Map<(u32, u32), u64> {
        self.route_service.distances()
    }

    /// The solution as it was last constructed.
    pub closed spec fn solution(&self) -> Map<u32, Route> {
        self.solution@
    }

    /// See [`Plan::wf`].
    pub open spec fn wf(&self) -> bool {
        self.plan().wf(self.distances(), self.stops())
    }

    /// A solver for `vehicles` and `stops` that chooses among the
    /// `rcl_size` nearest stops, with every stop in the pool and an empty
    /// solution. It is well-formed if no two stops and no two vehicles
    /// share an identity.
    pub fn new(
        rcl_size: usize,
        vehicles: Vec<Vehicle>,
        distances: &DistanceMatrix,
        stops: &Vec<Stop>,
    ) -> (solver: GraspSolver)
        ensures
            solver.rcl_size() == rcl_size,
            solver.stops() == stops@,
            solver.distances() == distances@,
            solver.plan().pool == stops@,
            solver.plan().routes == vehicles@.map_values(|vehicle: Vehicle| empty_route(vehicle)),
            solver.solution() == Map::<u32, Route>::empty(),
            stop_ids(stops@).no_duplicates() && ids_of(vehicles@).no_duplicates() ==> solver.wf(),
    {
        GraspSolver {
            rcl_size,
            solution: HashMap::new(),
            route_service: RouteService::new(vehicles, distances, stops),
        }
    }

    /// Gives every route without a stop its starting point, as
    /// [`RouteService::assign_starting_points`] does; the first step of
    /// [`GraspSolver::solve`], for a caller that runs the rounds itself.
    pub fn assign_starting_points(&mut self)
        requires
            old(self).wf(),
        ensures
            final(self).wf(),
            final(self).rcl_size() == old(self).rcl_size(),
            final(self).stops() == old(self).stops(),
            final(self).distances() == old(self).distances(),
            final(self).solution() == old(self).solution(),
            final(self).plan() == old(self).plan().started(
                old(self).distances(),
                old(self).plan().routes.len(),
            ),
    {
        self.route_service.assign_starting_points();
    }

    /// One of the nearest stops that the vehicle `vehicle_id` can take
    /// next, chosen at random among as many as the solver was made for.
    /// Absent if the vehicle has no route or there is no such stop.
    pub fn get_random_near_stop(&self, vehicle_id: u32) -> (chosen: Option<Stop>)
        requires
            self.wf(),
        ensures
            match self.plan().route_of(vehicle_id) {
                Some(r) => exists|list: Seq<Stop>|
                    {
                        &&& #[trigger] is_k_nearest(
                            self.plan().routes[r],
                            self.distances(),
                            self.plan().pool,
                            list,
                            self.rcl_size() as nat,
                        )
                        &&& match chosen {
                            Some(stop) => list.contains(stop),
                            None => list.len() == 0,
                        }
                    },
                None => chosen is None,
            },
    {
        let near_stops = self.route_service.get_k_nearest_stops(vehicle_id, self.rcl_size)?;
        let chosen = choose_stop(near_stops.as_slice());
        proof {
            let r = self.plan().route_of(vehicle_id).unwrap();
            assert(is_k_nearest(
                self.plan().routes[r],
                self.distances(),
                self.plan().pool,
                near_stops@,
                self.rcl_size() as nat,
            ));
        }
        chosen
    }

    /// One round: every vehicle in turn takes one of the nearest stops
    /// that it can take, chosen at random; one that can take none is passed
    /// over. If the round places no stop, and the solver chooses among at
    /// least one, no route can take a stop of the pool.
    pub fn run_iteration(&mut self)
        requires
            old(self).wf(),
        ensures
            final(self).wf(),
            final(self).rcl_size() == old(self).rcl_size(),
            final(self).stops() == old(self).stops(),
            final(self).distances() == old(self).distances(),
            final(self).solution() == old(self).solution(),
            is_near_round(
                old(self).plan(),
                final(self).plan(),
                old(self).distances(),
                old(self).rcl_size() as nat,
                old(self).plan().routes.len(),
            ),
            final(self).plan().grows_from(old(self).plan()),
            final(self).plan().pool.len() == old(self).plan().pool.len() ==> {
                &&& final(self).plan() == old(self).plan()
                &&& old(self).rcl_size() > 0 ==> old(self).plan().stalled(old(self).distances())
            },
    {
        let ghost distances = self.distances();
        let ghost start = self.plan();
        let vehicle_ids = get_all_vehicle_ids(&self.route_service);
        let mut v: usize = 0;
        proof {
            start.lemma_started_grows(distances, 0);
        }
        while v < vehicle_ids.len()
            invariant
                self.wf(),
                self.rcl_size() == old(self).rcl_size(),
                self.stops() == old(self).stops(),
                self.distances() == distances,
                self.solution() == old(self).solution(),
                distances == old(self).distances(),
                start == old(self).plan(),
                vehicle_ids@ == fleet_ids(self.plan().routes),
                vehicle_ids@.len() == start.routes.len(),
                v <= vehicle_ids@.len(),
                is_near_round(start, self.plan(), distances, self.rcl_size() as nat, v as nat),
                self.plan().grows_from(start),
                self.plan().pool.len() == start.pool.len() ==> {
                    &&& self.plan() == start
                    &&& self.rcl_size() > 0 ==> forall|r: int, stop: Stop|
                        0 <= r < v && start.pool.contains(stop) ==> !(
                        #[trigger] start.routes[r].reaches(distances, stop))
                },
            decreases vehicle_ids@.len() - v,
        {
            let ghost before = self.plan();
            let vehicle_id = vehicle_ids[v];
            proof {
                lemma_first_index(vehicle_ids@, vehicle_id, v as int);
            }
            let stop_id = match self.get_random_near_stop(vehicle_id) {
                None => {
                    proof {
                        let list = choose|list: Seq<Stop>|
                            #[trigger] is_k_nearest(
                                before.routes[v as int],
                                distances,
                                before.pool,
                                list,
                                self.rcl_size() as nat,
                            ) && list.len() == 0;
                        assert forall|stop: Stop|
                            before.pool.contains(stop) && self.rcl_size() > 0 implies !(
                        #[trigger] before.routes[v as int].reaches(distances, stop)) by {
                            assert(!list.contains(stop));
                        }
                        assert(is_near_visit(
                            before,
                            before,
                            distances,
                            self.rcl_size() as nat,
                            v as int,
                        ));
                    }
                    proof {
                        lemma_near_round_step(
                            start,
                            before,
                            before,
                            distances,
                            self.rcl_size() as nat,
                            v as nat,
                        );
                    }
                    v = v + 1;
                    continue ;
                },
                Some(stop) => stop.get_id(),
            };
            proof {
                let list = choose|list: Seq<Stop>|
                    #[trigger] is_k_nearest(
                        before.routes[v as int],
                        distances,
                        before.pool,
                        list,
                        self.rcl_size() as nat,
                    ) && exists|stop: Stop| list.contains(stop) && stop.id == stop_id;
                let stop = choose|stop: Stop| list.contains(stop) && stop.id == stop_id;
                let i = choose|i: int| 0 <= i < list.len() && list[i] == stop;
                assert(before.pool.contains(list[i]));
                let p = choose|p: int| 0 <= p < before.pool.len() && before.pool[p] == stop;
                assert(stop_ids(before.pool)[p] == stop_id);
                lemma_first_index(stop_ids(before.pool), stop_id, p);
                before.lemma_assign_grows(distances, v as int, p);
                before.assign(distances, v as int, p).lemma_grows_transitive(before, start);
                assert(fleet_ids(before.assign(distances, v as int, p).routes)
                    =~= vehicle_ids@);
                assert(list.len() > 0 && list.contains(before.pool[p]));
                assert(is_near_visit(
                    before,
                    before.assign(distances, v as int, p),
                    distances,
                    self.rcl_size() as nat,
                    v as int,
                ));
            }
            self.route_service.assign_stop_to_route(vehicle_id, stop_id).unwrap();
            v = v + 1;
            proof {
                lemma_near_round_step(
                    start,
                    before,
                    self.plan(),
                    distances,
                    self.rcl_size() as nat,
                    (v - 1) as nat,
                );
            }
        }
    }

    /// Whether the pool holds no stop that a vehicle could still take on
    /// board.
    pub fn stop_condition_met(&self) -> (met: bool)
        ensures
            met == !self.plan().has_available_stop(),
    {
        !self.route_service.has_available_stop()
    }

    /// Rounds of construction until the pool holds no stop that a vehicle
    /// could take on board, or a round places none.
    fn run_all_iterations(&mut self)
        requires
            old(self).wf(),
        ensures
            final(self).wf(),
            final(self).rcl_size() == old(self).rcl_size(),
            final(self).stops() == old(self).stops(),
            final(self).distances() == old(self).distances(),
            final(self).solution() == old(self).solution(),
            exists|rounds: nat|
                is_near_construction(
                    old(self).plan(),
                    final(self).plan(),
                    old(self).distances(),
                    old(self).rcl_size() as nat,
                    rounds,
                ),
            final(self).plan().grows_from(old(self).plan()),
            !final(self).plan().has_available_stop() || (final(self).rcl_size() > 0
                ==> final(self).plan().stalled(final(self).distances())),
    {
        let mut settled = false;
        let ghost mut rounds: nat = 0;
        proof {
            self.plan().lemma_started_grows(self.distances(), 0);
        }
        while !settled
            invariant
                is_near_construction(
                    old(self).plan(),
                    self.plan(),
                    old(self).distances(),
                    old(self).rcl_size() as nat,
                    rounds,
                ),
                self.wf(),
                self.rcl_size() == old(self).rcl_size(),
                self.stops() == old(self).stops(),
                self.distances() == old(self).distances(),
                self.solution() == old(self).solution(),
                self.plan().grows_from(old(self).plan()),
                settled ==> !self.plan().has_available_stop() || (self.rcl_size() > 0
                    ==> self.plan().stalled(self.distances())),
            decreases self.plan().pool.len(), if settled { 0int } else { 1int },
        {
            if self.stop_condition_met() {
                settled = true;
            } else {
                let ghost before = self.plan();
                let remaining = self.route_service.get_available_stops().len();
                self.run_iteration();
                proof {
                    self.plan().lemma_grows_transitive(before, old(self).plan());
                    assert(is_near_construction(
                        old(self).plan(),
                        before,
                        old(self).distances(),
                        old(self).rcl_size() as nat,
                        rounds,
                    ));
                    lemma_near_construction_step(
                        old(self).plan(),
                        before,
                        self.plan(),
                        old(self).distances(),
                        old(self).rcl_size() as nat,
                        rounds,
                    );
                    rounds = rounds + 1;
                }
                if self.route_service.get_available_stops().len() >= remaining {
                    settled = true;
                }
            }
        }
    }

    /// Constructs the routes: every route gets its starting point, then
    /// rounds of construction follow until the pool holds no stop that a
    /// vehicle could take on board, or a round places none. The routes
    /// then stand in the solution.
    pub fn solve(&mut self)
        requires
            old(self).wf(),
        ensures
            final(self).wf(),
            final(self).rcl_size() == old(self).rcl_size(),
            final(self).stops() == old(self).stops(),
            final(self).distances() == old(self).distances(),
            exists|rounds: nat|
                is_near_construction(
                    old(self).plan().started(old(self).distances(), old(self).plan().routes.len()),
                    final(self).plan(),
                    old(self).distances(),
                    old(self).rcl_size() as nat,
                    rounds,
                ),
            final(self).plan().grows_from(old(self).plan()),
            final(self).plan().is_started(),
            !final(self).plan().has_available_stop() || (final(self).rcl_size() > 0
                ==> final(self).plan().stalled(final(self).distances())),
            covers(final(self).distances(), final(self).stops()) && final(self).rcl_size() > 0
                ==> !final(self).plan().has_available_stop(),
            is_solution_of(final(self).solution(), final(self).plan()),
    {
        let ghost start = self.plan();
        self.route_service.assign_starting_points();
        let ghost started = self.plan();
        self.run_all_iterations();
        proof {
            let rounds = choose|rounds: nat|
                is_near_construction(
                    started,
                    self.plan(),
                    self.distances(),
                    self.rcl_size() as nat,
                    rounds,
                );
            assert(is_near_construction(
                start.started(self.distances(), start.routes.len()),
                self.plan(),
                self.distances(),
                self.rcl_size() as nat,
                rounds,
            ));
            start.lemma_started_grows(self.distances(), start.routes.len());
            self.plan().lemma_grows_transitive(started, start);
            start.lemma_started_is_started(self.distances(), start.routes.len());
            self.plan().lemma_grown_is_started(started, start.routes.len() as int);
            if covers(self.distances(), self.stops()) && self.rcl_size() > 0
                && self.plan().stalled(self.distances()) {
                self.plan().lemma_stalled_is_done(self.distances(), self.stops());
            }
        }
        self.solution = construct_solutions(&self.route_service);
    }

    /// The solution as it was last constructed: empty before the first
    /// call of [`GraspSolver::solve`].
    pub fn get_solution(&self) -> (solution: &Solution)
        ensures
            solution@ == self.solution(),
    {
        &self.solution
    }

    /// The service that holds the routes and the pool.
    pub fn get_route_service(&self) -> (route_service: &RouteService)
        ensures
            route_service.plan() == self.plan(),
            route_service.stops() == self.stops(),
            route_service.distances() == self.distances(),
    {
        &self.route_service
    }

    /// The distance recorded for all routes together.
    pub fn solution_total_distance(&self) -> (total: u128)
        requires
            self.wf(),
        ensures
            total == self.plan().total_distance(),
    {
        self.route_service.total_distance()
    }
}

} // verus!
