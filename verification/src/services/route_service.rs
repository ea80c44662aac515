use std::collections::HashSet;
use vstd::prelude::*;
use crate::domain::route::{Route, RouteView};
use crate::domain::stop::{Stop, stop_ids};
use crate::domain::vehicle::Vehicle;
use crate::errors::{AssignmentError, VehicleOverloadError};
use crate::services::distance_service::{DistanceMatrix, DistanceService};
use crate::services::plan::{
    Plan, fleet_ids, is_k_nearest, is_next_candidate, is_next_nearest, route_lengths, route_totals,
};
use crate::services::plan_laws::lemma_first_index;
use crate::sums::{sum, lemma_sum_bound, lemma_sum_concat, lemma_sum_push};

verus! {

/// The route that a vehicle starts with: no stops, no distance.
pub open spec fn empty_route(vehicle: Vehicle) -> RouteView {
    RouteView { stops: Seq::empty(), vehicle: vehicle@, total_distance: 0 }
}

/// The identities of a sequence of vehicles, in order.
pub open spec fn ids_of(vehicles: Seq<Vehicle>) -> Seq<u32> {
    vehicles.map_values(|vehicle: Vehicle| vehicle@.id)
}

/// Whether no two of `ids` are the same.
pub fn all_distinct(ids: &Vec<u32>) -> (distinct: bool)
    ensures
        distinct == ids@.no_duplicates(),
{
    broadcast use vstd::std_specs::hash::group_hash_axioms;

    let mut seen: HashSet<u32> = HashSet::new();
    let mut i: usize = 0;
    while i < ids.len()
        invariant
            i <= ids@.len(),
            forall|id: u32| seen@.contains(id) <==> exists|j: int| 0 <= j < i && ids@[j] == id,
            forall|j: int, k: int| 0 <= j < k < i ==> ids@[j] != ids@[k],
        decreases ids@.len() - i,
    {
        let ghost before = seen@;
        if !seen.insert(ids[i]) {
            proof {
                let j = choose|j: int| 0 <= j < i && ids@[j] == ids@[i as int];
                assert(ids@[j] == ids@[i as int] && j != i);
            }
            return false;
        }
        proof {
            assert forall|id: u32| seen@.contains(id) <==> exists|j: int|
                0 <= j < i + 1 && ids@[j] == id by {
                if before.contains(id) {
                    let j = choose|j: int| 0 <= j < i && ids@[j] == id;
                    assert(0 <= j < i + 1 && ids@[j] == id);
                }
                if id == ids@[i as int] {
                    assert(0 <= i < i + 1 && ids@[i as int] == id);
                }
            }
        }
        i = i + 1;
    }
    true
}

/// Assigns stops to the routes of a fleet: it holds one route for each
/// vehicle, the pool of the stops that no route holds yet, and the
/// distances between stops.
pub struct RouteService {
    routes: Vec<Route>,
    available_stops: Vec<Stop>,
    stops: Vec<Stop>,
    distance_service: DistanceService,
}

impl RouteService {
    /// The routes and the pool.
    pub closed spec fn plan(&self) -> Plan {
        Plan { routes: self.routes@.map_values(|route: Route| route@), pool: self.available_stops@ }
    }

    /// All stops that the service was made for.
    pub closed spec fn stops(&self) -> Seq<Stop> {
        self.stops@
    }

    /// The distances by which the service measures.
    pub closed spec fn distances(&self) -> Map<(u32, u32), u64> {
        self.distance_service@
    }

    /// See [`Plan::wf`].
    pub open spec fn wf(&self) -> bool {
        self.plan().wf(self.distances(), self.stops())
    }

    /// Whether no two of `stops` and no two of `vehicles` share an
    /// identity, so that a service made for them is well-formed.
    pub fn is_valid_input(vehicles: &Vec<Vehicle>, stops: &Vec<Stop>) -> (valid: bool)
        ensures
            valid == (stop_ids(stops@).no_duplicates() && ids_of(vehicles@).no_duplicates()),
    {
        let mut ids: Vec<u32> = Vec::new();
        let mut s: usize = 0;
        while s < stops.len()
            invariant
                s <= stops@.len(),
                ids@ == stop_ids(stops@).take(s as int),
            decreases stops@.len() - s,
        {
            ids.push(stops[s].id);
            proof {
                assert(stop_ids(stops@).take(s as int).push(stops@[s as int].id) =~= stop_ids(
                    stops@,
                ).take(s + 1));
            }
            s = s + 1;
        }
        proof {
            assert(stop_ids(stops@).take(s as int) =~= stop_ids(stops@));
        }
        if !all_distinct(&ids) {
            return false;
        }
        let mut ids: Vec<u32> = Vec::new();
        let mut v: usize = 0;
        while v < vehicles.len()
            invariant
                v <= vehicles@.len(),
                ids@ == ids_of(vehicles@).take(v as int),
            decreases vehicles@.len() - v,
        {
            ids.push(vehicles[v].get_id());
            proof {
                assert(ids_of(vehicles@).take(v as int).push(vehicles@[v as int]@.id) =~= ids_of(
                    vehicles@,
                ).take(v + 1));
            }
            v = v + 1;
        }
        proof {
            assert(ids_of(vehicles@).take(v as int) =~= ids_of(vehicles@));
        }
        all_distinct(&ids)
    }

    /// A service for `vehicles` with all of `stops` in the pool. It is
    /// well-formed if no two stops and no two vehicles share an identity.
    pub fn new(vehicles: Vec<Vehicle>, distances: &DistanceMatrix, stops: &Vec<Stop>) -> (service:
        RouteService)
        ensures
            service.stops() == stops@,
            service.distances() == distances@,
            service.plan().pool == stops@,
            service.plan().routes == vehicles@.map_values(|vehicle: Vehicle| empty_route(vehicle)),
            stop_ids(stops@).no_duplicates() && ids_of(vehicles@).no_duplicates() ==> service.wf(),
    {
        let mut routes: Vec<Route> = Vec::new();
        let mut v: usize = 0;
        while v < vehicles.len()
            invariant
                v <= vehicles@.len(),
                routes@.len() == v,
                forall|r: int|
                    0 <= r < v ==> (#[trigger] routes@[r])@ == empty_route(vehicles@[r])
                        && routes@[r].wf(),
            decreases vehicles@.len() - v,
        {
            routes.push(Route::new(vehicles[v]));
            v = v + 1;
        }
        let pool = vstd::slice::slice_to_vec(stops.as_slice());
        let all = vstd::slice::slice_to_vec(stops.as_slice());
        let service = RouteService {
            routes,
            available_stops: pool,
            stops: all,
            distance_service: DistanceService::new(distances.clone()),
        };
        proof {
            assert(stops@.len() == stops.len() <= usize::MAX);
            let plan = service.plan();
            assert(plan.routes =~= vehicles@.map_values(|vehicle: Vehicle| empty_route(vehicle)));
            if stop_ids(stops@).no_duplicates() && ids_of(vehicles@).no_duplicates() {
                assert(fleet_ids(plan.routes) =~= ids_of(vehicles@));
                lemma_sum_bound(route_lengths(plan.routes), 0);
                assert(route_lengths(plan.routes).len() * 0 == 0) by (nonlinear_arith);
                assert forall|r: int| 0 <= r < plan.routes.len() implies (#[trigger] plan.routes[r]).wf()
                    && plan.routes[r].measured_by(distances@) by {
                    assert(plan.routes[r] == service.routes@[r]@);
                    assert(service.routes@[r].wf());
                }
                assert forall|stop: Stop| #[trigger] stops@.contains(stop) <==> plan.places(stop) by {
                    assert(!plan.routed(stop));
                }
            }
        }
        service
    }

    /// The position of the route of the vehicle `vehicle_id`.
    fn find_route(&self, vehicle_id: u32) -> (found: Option<usize>)
        ensures
            match found {
                Some(r) => self.plan().route_of(vehicle_id) == Some(r as int) && r
                    < self.plan().routes.len(),
                None => self.plan().route_of(vehicle_id) is None,
            },
    {
        let mut r: usize = 0;
        while r < self.routes.len()
            invariant
                r <= self.routes@.len(),
                forall|j: int| 0 <= j < r ==> fleet_ids(self.plan().routes)[j] != vehicle_id,
            decreases self.routes@.len() - r,
        {
            if self.routes[r].get_vehicle().get_id() == vehicle_id {
                proof {
                    lemma_first_index(fleet_ids(self.plan().routes), vehicle_id, r as int);
                }
                return Some(r);
            }
            r = r + 1;
        }
        proof {
            lemma_first_index(fleet_ids(self.plan().routes), vehicle_id, r as int);
        }
        None
    }

    /// The position in the pool of the stop `stop_id`.
    fn find_available(&self, stop_id: u32) -> (found: Option<usize>)
        ensures
            match found {
                Some(p) => self.plan().pool_position(stop_id) == Some(p as int) && p
                    < self.plan().pool.len(),
                None => self.plan().pool_position(stop_id) is None,
            },
    {
        let mut p: usize = 0;
        while p < self.available_stops.len()
            invariant
                p <= self.available_stops@.len(),
                forall|j: int| 0 <= j < p ==> stop_ids(self.plan().pool)[j] != stop_id,
            decreases self.available_stops@.len() - p,
        {
            if self.available_stops[p].id == stop_id {
                proof {
                    lemma_first_index(stop_ids(self.plan().pool), stop_id, p as int);
                }
                return Some(p);
            }
            p = p + 1;
        }
        proof {
            lemma_first_index(stop_ids(self.plan().pool), stop_id, p as int);
        }
        None
    }

    /// The position in the pool of the first of the stops that route `r`
    /// can take next and that come after `after`.
    fn next_nearest(&self, r: usize, after: Option<Stop>) -> (found: Option<usize>)
        requires
            self.wf(),
            r < self.plan().routes.len(),
            after matches Some(bound) ==> self.plan().routes[r as int].reaches(self.distances(), bound),
        ensures
            match found {
                Some(p) => p < self.plan().pool.len() && is_next_nearest(
                    self.plan().routes[r as int],
                    self.distances(),
                    self.plan().pool,
                    after,
                    self.plan().pool[p as int],
                ),
                None => forall|stop: Stop|
                    !#[trigger] is_next_candidate(
                        self.plan().routes[r as int],
                        self.distances(),
                        self.plan().pool,
                        after,
                        stop,
                    ),
            },
    {
        let ghost route = self.plan().routes[r as int];
        let ghost distances = self.distances();
        let ghost pool = self.plan().pool;
        assert(route == self.routes@[r as int]@);
        let tail = match self.routes[r].get_current_stop() {
            Some(tail) => *tail,
            None => {
                return None;
            },
        };
        let bound: Option<(u64, u32)> = match after {
            Some(stop) => match self.distance_service.get_distance(&tail, &stop) {
                Some(distance) => Some((distance, stop.id)),
                None => None,
            },
            None => None,
        };
        let mut best: Option<(usize, u64)> = None;
        let mut p: usize = 0;
        while p < self.available_stops.len()
            invariant
                self.wf(),
                r < self.routes@.len(),
                route == self.routes@[r as int]@,
                distances == self.distances(),
                pool == self.plan().pool,
                pool == self.available_stops@,
                route.stops.len() > 0,
                tail == route.stops.last(),
                p <= pool.len(),
                bound == match after {
                    Some(stop) => Some((distances[(tail.id, stop.id)], stop.id)),
                    None => None,
                },
                match best {
                    Some((b, distance)) => {
                        &&& b < p
                        &&& is_next_candidate(route, distances, pool, after, pool[b as int])
                        &&& distance == distances[(tail.id, pool[b as int].id)]
                        &&& forall|q: int|
                            0 <= q < p && is_next_candidate(
                                route,
                                distances,
                                pool,
                                after,
                                #[trigger] pool[q],
                            ) && q != b ==> route.prefers(distances, pool[b as int], pool[q])
                    },
                    None => forall|q: int|
                        0 <= q < p ==> !is_next_candidate(
                            route,
                            distances,
                            pool,
                            after,
                            #[trigger] pool[q],
                        ),
                },
            decreases pool.len() - p,
        {
            let stop = self.available_stops[p];
            proof {
                assert(pool.contains(stop));
                assert forall|q: int| 0 <= q < p implies (#[trigger] pool[q]).id != stop.id by {
                    assert(stop_ids(pool)[q] != stop_ids(pool)[p as int]);
                }
            }
            if self.routes[r].can_add_stop(&stop) {
                if let Some(distance) = self.distance_service.get_distance(&tail, &stop) {
                    let comes_after = match bound {
                        None => true,
                        Some((limit, id)) => limit < distance || (limit == distance && id < stop.id),
                    };
                    if comes_after {
                        let better = match best {
                            None => true,
                            Some((b, least)) => distance < least || (distance == least && stop.id
                                < self.available_stops[b].id),
                        };
                        if better {
                            best = Some((p, distance));
                        }
                    }
                }
            }
            p = p + 1;
        }
        match best {
            Some((b, _)) => {
                proof {
                    assert forall|other: Stop| #[trigger]
                        is_next_candidate(route, distances, pool, after, other) && other.id
                            != pool[b as int].id implies route.prefers(
                        distances,
                        pool[b as int],
                        other,
                    ) by {
                        let q = choose|q: int| 0 <= q < pool.len() && pool[q] == other;
                        assert(is_next_candidate(route, distances, pool, after, pool[q]));
                    }
                }
                Some(b)
            },
            None => {
                proof {
                    assert forall|stop: Stop|
                        !#[trigger] is_next_candidate(route, distances, pool, after, stop) by {
                        if pool.contains(stop) {
                            let q = choose|q: int| 0 <= q < pool.len() && pool[q] == stop;
                            assert(!is_next_candidate(route, distances, pool, after, pool[q]));
                        }
                    }
                }
                None
            },
        }
    }

    /// The stop of the pool that the vehicle `vehicle_id` can take next and
    /// that is nearest to the last stop of its route; of several as near,
    /// the one of smallest identity. Absent if the vehicle has no route,
    /// if its route has no stop yet, or if it can take no stop of the pool.
    pub fn get_nearest_stop(&self, vehicle_id: u32) -> (nearest: Option<&Stop>)
        requires
            self.wf(),
        ensures
            match nearest {
                Some(stop) => self.plan().nearest_stop(self.distances(), vehicle_id) == Some(*stop),
                None => self.plan().nearest_stop(self.distances(), vehicle_id) is None,
            },
    {
        let r = self.find_route(vehicle_id)?;
        match self.next_nearest(r, None) {
            Some(p) => {
                proof {
                    self.plan().lemma_nearest_unique(self.distances(), r as int, p as int);
                }
                Some(&self.available_stops[p])
            },
            None => None,
        }
    }

    /// The `k` stops of the pool that the vehicle `vehicle_id` can take
    /// next and that are nearest to the last stop of its route, or all
    /// that it can take if they are fewer, in order of distance and, where
    /// the distance is the same, of identity. Absent if the vehicle has no
    /// route.
    pub fn get_k_nearest_stops(&self, vehicle_id: u32, k: usize) -> (nearest: Option<Vec<Stop>>)
        requires
            self.wf(),
        ensures
            match self.plan().route_of(vehicle_id) {
                Some(r) => nearest matches Some(list) && is_k_nearest(
                    self.plan().routes[r],
                    self.distances(),
                    self.plan().pool,
                    list@,
                    k as nat,
                ),
                None => nearest is None,
            },
    {
        let r = self.find_route(vehicle_id)?;
        let ghost route = self.plan().routes[r as int];
        let ghost distances = self.distances();
        let ghost pool = self.plan().pool;
        let mut list: Vec<Stop> = Vec::new();
        let mut after: Option<Stop> = None;
        let mut exhausted = false;
        while list.len() < k && !exhausted
            invariant
                self.wf(),
                r < self.plan().routes.len(),
                route == self.plan().routes[r as int],
                distances == self.distances(),
                pool == self.plan().pool,
                list@.len() <= k,
                list@.len() == 0 <==> after is None,
                after matches Some(last) ==> list@.last() == last,
                forall|i: int|
                    0 <= i < list@.len() ==> pool.contains(#[trigger] list@[i]) && route.reaches(
                        distances,
                        list@[i],
                    ),
                forall|i: int, j: int|
                    0 <= i < j < list@.len() ==> route.prefers(
                        distances,
                        #[trigger] list@[i],
                        #[trigger] list@[j],
                    ),
                forall|stop: Stop|
                    pool.contains(stop) && #[trigger] route.reaches(distances, stop)
                        && !list@.contains(stop) ==> !exhausted && (after matches Some(last)
                        ==> route.prefers(distances, last, stop)),
            decreases k - list@.len(), if exhausted { 0int } else { 1int },
        {
            match self.next_nearest(r, after) {
                Some(p) => {
                    let stop = self.available_stops[p];
                    let ghost shorter = list@;
                    list.push(stop);
                    proof {
                        assert(is_next_candidate(route, distances, pool, after, stop));
                        assert forall|other: Stop|
                            pool.contains(other) && #[trigger] route.reaches(distances, other)
                                && !list@.contains(other) implies route.prefers(
                            distances,
                            stop,
                            other,
                        ) by {
                            assert(list@[shorter.len() as int] == stop);
                            if shorter.contains(other) {
                                let i = choose|i: int| 0 <= i < shorter.len() && shorter[i] == other;
                                assert(list@[i] == other);
                            }
                            assert(is_next_candidate(route, distances, pool, after, other));
                            if other.id == stop.id {
                                let a = choose|a: int| 0 <= a < pool.len() && pool[a] == other;
                                assert(stop_ids(pool)[a] == stop_ids(pool)[p as int]);
                            }
                        }
                        assert forall|i: int, j: int| 0 <= i < j < list@.len() implies route.prefers(
                            distances,
                            #[trigger] list@[i],
                            #[trigger] list@[j],
                        ) by {
                            if j == shorter.len() {
                                assert(list@[i] == shorter[i]);
                                if i < shorter.len() - 1 {
                                    assert(route.prefers(distances, shorter[i], shorter.last()));
                                }
                            } else {
                                assert(list@[i] == shorter[i] && list@[j] == shorter[j]);
                            }
                        }
                    }
                    after = Some(stop);
                },
                None => {
                    proof {
                        assert forall|stop: Stop|
                            pool.contains(stop) && #[trigger] route.reaches(distances, stop) implies
                            list@.contains(stop) by {
                            assert(!is_next_candidate(route, distances, pool, after, stop));
                        }
                    }
                    exhausted = true;
                },
            }
        }
        proof {
            assert forall|stop: Stop|
                pool.contains(stop) && #[trigger] route.reaches(distances, stop) && !list@.contains(
                    stop,
                ) implies list@.len() == k && forall|i: int|
                0 <= i < list@.len() ==> route.prefers(distances, #[trigger] list@[i], stop) by {
                assert forall|i: int| 0 <= i < list@.len() implies route.prefers(
                    distances,
                    #[trigger] list@[i],
                    stop,
                ) by {
                    if i < list@.len() - 1 {
                        assert(route.prefers(distances, list@[i], list@.last()));
                    }
                }
            }
        }
        Some(list)
    }

    /// Whether the pool holds a stop that some vehicle could still take on
    /// board.
    pub fn has_available_stop(&self) -> (available: bool)
        ensures
            available == self.plan().has_available_stop(),
    {
        let ghost plan = self.plan();
        let mut p: usize = 0;
        while p < self.available_stops.len()
            invariant
                plan == self.plan(),
                p <= plan.pool.len(),
                forall|r: int, q: int|
                    0 <= r < plan.routes.len() && 0 <= q < p ==> !(#[trigger] plan.routes[r]).vehicle.supports(
                        (#[trigger] plan.pool[q]).usage,
                    ),
            decreases plan.pool.len() - p,
        {
            let mut r: usize = 0;
            while r < self.routes.len()
                invariant
                    plan == self.plan(),
                    p < plan.pool.len(),
                    r <= plan.routes.len(),
                    forall|v: int|
                        0 <= v < r ==> !(#[trigger] plan.routes[v]).vehicle.supports(
                            plan.pool[p as int].usage,
                        ),
                decreases plan.routes.len() - r,
            {
                assert(plan.routes[r as int] == self.routes@[r as int]@);
                if self.routes[r].can_add_stop(&self.available_stops[p]) {
                    assert(plan.routes[r as int].vehicle.supports(plan.pool[p as int].usage));
                    return true;
                }
                r = r + 1;
            }
            p = p + 1;
        }
        false
    }

    /// Gives every route without a stop its starting point: the first stop
    /// of the pool that its vehicle can take on board becomes its first
    /// stop, over no distance. The routes are treated in order; a route
    /// whose vehicle can take none stays empty.
    pub fn assign_starting_points(&mut self)
        requires
            old(self).wf(),
        ensures
            final(self).wf(),
            final(self).stops() == old(self).stops(),
            final(self).distances() == old(self).distances(),
            final(self).plan() == old(self).plan().started(
                old(self).distances(),
                old(self).plan().routes.len(),
            ),
    {
        let ghost distances = self.distances();
        let count = self.routes.len();
        let mut r: usize = 0;
        while r < count
            invariant
                self.wf(),
                self.stops() == old(self).stops(),
                self.distances() == distances,
                distances == old(self).distances(),
                count == self.plan().routes.len(),
                count == old(self).plan().routes.len(),
                count == self.routes@.len(),
                r <= count,
                self.plan() == old(self).plan().started(distances, r as nat),
            decreases count - r,
        {
            let ghost before = self.plan();
            assert(before.routes[r as int] == self.routes@[r as int]@);
            if self.routes[r].get_stops().len() == 0 {
                if let Some(p) = self.first_fit(r) {
                    let placed = self.assign(r, p);
                    assert(placed is Ok);
                }
            }
            assert(self.plan() == before.start(distances, r as int));
            r = r + 1;
        }
    }

    /// The first position of the pool whose stop the vehicle of route `r`
    /// can take on board.
    fn first_fit(&self, r: usize) -> (found: Option<usize>)
        requires
            r < self.plan().routes.len(),
        ensures
            match found {
                Some(p) => self.plan().first_fit(r as int) == Some(p as int) && p
                    < self.plan().pool.len() && self.plan().is_first_fit(r as int, p as int),
                None => self.plan().first_fit(r as int) is None,
            },
    {
        let ghost plan = self.plan();
        assert(plan.routes[r as int] == self.routes@[r as int]@);
        let mut p: usize = 0;
        while p < self.available_stops.len()
            invariant
                plan == self.plan(),
                r < self.routes@.len(),
                plan.routes[r as int] == self.routes@[r as int]@,
                p <= plan.pool.len(),
                forall|q: int|
                    0 <= q < p ==> !plan.routes[r as int].vehicle.supports((#[trigger] plan.pool[q]).usage),
            decreases plan.pool.len() - p,
        {
            if self.routes[r].can_add_stop(&self.available_stops[p]) {
                assert(plan.is_first_fit(r as int, p as int));
                return Some(p);
            }
            p = p + 1;
        }
        None
    }

    /// The routes, one for each vehicle, in the order of the vehicles.
    pub fn get_all_routes(&self) -> (routes: &Vec<Route>)
        ensures
            routes@.map_values(|route: Route| route@) == self.plan().routes,
    {
        &self.routes
    }

    /// The route of the vehicle `vehicle_id`, if it has one.
    pub fn get_route(&self, vehicle_id: u32) -> (route: Option<&Route>)
        ensures
            match self.plan().route_of(vehicle_id) {
                Some(r) => route matches Some(found) && found@ == self.plan().routes[r],
                None => route is None,
            },
    {
        let r = self.find_route(vehicle_id)?;
        Some(&self.routes[r])
    }

    /// The vehicles as they are loaded now, in order.
    pub fn get_vehicles(&self) -> (vehicles: Vec<Vehicle>)
        ensures
            vehicles@.len() == self.plan().routes.len(),
            forall|r: int|
                0 <= r < vehicles@.len() ==> (#[trigger] vehicles@[r])@ == self.plan().routes[r].vehicle,
    {
        let mut vehicles: Vec<Vehicle> = Vec::new();
        let mut r: usize = 0;
        while r < self.routes.len()
            invariant
                r <= self.routes@.len(),
                vehicles@.len() == r,
                forall|v: int|
                    0 <= v < r ==> (#[trigger] vehicles@[v])@ == self.plan().routes[v].vehicle,
            decreases self.routes@.len() - r,
        {
            vehicles.push(*self.routes[r].get_vehicle());
            r = r + 1;
        }
        vehicles
    }

    /// The stops that no route holds yet.
    pub fn get_available_stops(&self) -> (pool: &Vec<Stop>)
        ensures
            pool@ == self.plan().pool,
    {
        &self.available_stops
    }

    /// The distance recorded for all routes together.
    pub fn total_distance(&self) -> (total: u128)
        requires
            self.wf(),
        ensures
            total == self.plan().total_distance(),
    {
        let ghost totals = route_totals(self.plan().routes);
        let mut total: u128 = 0;
        let mut r: usize = 0;
        proof {
            self.plan().lemma_total_distance_bound(self.distances(), self.stops());
        }
        while r < self.routes.len()
            invariant
                totals == route_totals(self.plan().routes),
                totals.len() == self.routes@.len(),
                r <= self.routes@.len(),
                total == sum(totals.take(r as int)),
                sum(totals) <= u128::MAX,
            decreases self.routes@.len() - r,
        {
            proof {
                assert(totals.take(r as int).push(totals[r as int]) =~= totals.take(r + 1));
                lemma_sum_push(totals.take(r as int), totals[r as int]);
                assert(totals =~= totals.take(r + 1) + totals.skip(r + 1));
                lemma_sum_concat(totals.take(r + 1), totals.skip(r + 1));
            }
            total = total + self.routes[r].total_distance();
            r = r + 1;
        }
        proof {
            assert(totals.take(r as int) =~= totals);
        }
        total
    }

    /// Takes the stop `stop_id` out of the pool and appends it to the
    /// route of the vehicle `vehicle_id`, over the distance from the
    /// route's last stop, or over none if it is the route's first. On any
    /// failure the service stays as it was.
    pub fn assign_stop_to_route(&mut self, vehicle_id: u32, stop_id: u32) -> (result: Result<
        (),
        AssignmentError,
    >)
        requires
            old(self).wf(),
        ensures
            final(self).wf(),
            final(self).stops() == old(self).stops(),
            final(self).distances() == old(self).distances(),
            result == assignment_result(old(self).plan(), old(self).distances(), vehicle_id, stop_id),
            final(self).plan() == assignment(
                old(self).plan(),
                old(self).distances(),
                vehicle_id,
                stop_id,
            ),
    {
        let r = match self.find_route(vehicle_id) {
            Some(r) => r,
            None => {
                return Err(AssignmentError::UnknownVehicle);
            },
        };
        let p = match self.find_available(stop_id) {
            Some(p) => p,
            None => {
                return Err(AssignmentError::StopNotAvailable);
            },
        };
        self.assign(r, p)
    }

    /// Moves the stop at position `p` of the pool to the end of route `r`.
    fn assign(&mut self, r: usize, p: usize) -> (result: Result<(), AssignmentError>)
        requires
            old(self).wf(),
            r < old(self).plan().routes.len(),
            p < old(self).plan().pool.len(),
        ensures
            final(self).wf(),
            final(self).stops() == old(self).stops(),
            final(self).distances() == old(self).distances(),
            result == placement_result(old(self).plan(), old(self).distances(), r as int, p as int),
            final(self).plan() == placement(
                old(self).plan(),
                old(self).distances(),
                r as int,
                p as int,
            ),
    {
        let ghost before = self.plan();
        let ghost distances = self.distances();
        let stop = self.available_stops[p];
        assert(before.routes[r as int] == self.routes@[r as int]@);
        let distance = match self.routes[r].get_current_stop() {
            None => 0,
            Some(tail) => match self.distance_service.get_distance(tail, &stop) {
                Some(distance) => distance,
                None => {
                    return Err(AssignmentError::UnknownDistance);
                },
            },
        };
        if let Err(overload) = self.routes[r].add_stop(stop, distance) {
            assert(self.routes@ =~= old(self).routes@);
            return Err(AssignmentError::VehicleOverload(overload));
        }
        self.available_stops.remove(p);
        proof {
            before.lemma_assign_wf(distances, self.stops(), r as int, p as int);
            assert(self.plan().routes =~= before.assign(distances, r as int, p as int).routes);
        }
        Ok(())
    }
}

/// What placing the stop at position `p` of the pool at the end of route
/// `r` returns.
pub open spec fn placement_result(plan: Plan, distances: Map<(u32, u32), u64>, r: int, p: int) -> Result<
    (),
    AssignmentError,
> {
    let route = plan.routes[r];
    let stop = plan.pool[p];
    if route.stops.len() > 0 && !distances.contains_key((route.stops.last().id, stop.id)) {
        Err(AssignmentError::UnknownDistance)
    } else if !route.vehicle.supports(stop.usage) {
        Err(
            AssignmentError::VehicleOverload(
                VehicleOverloadError { vehicle_id: route.vehicle.id, load: stop.usage },
            ),
        )
    } else {
        Ok(())
    }
}

/// The plan after the stop at position `p` of the pool was to be placed
/// at the end of route `r`: changed if that succeeded, and as before if
/// not.
pub open spec fn placement(plan: Plan, distances: Map<(u32, u32), u64>, r: int, p: int) -> Plan {
    if placement_result(plan, distances, r, p) is Ok {
        plan.assign(distances, r, p)
    } else {
        plan
    }
}

/// What assigning the stop `stop_id` to the route of the vehicle
/// `vehicle_id` returns: the first of the four failures that applies, in
/// the order unknown vehicle, stop not in the pool, unknown distance,
/// overload; or success.
pub open spec fn assignment_result(
    plan: Plan,
    distances: Map<(u32, u32), u64>,
    vehicle_id: u32,
    stop_id: u32,
) -> Result<(), AssignmentError> {
    match (plan.route_of(vehicle_id), plan.pool_position(stop_id)) {
        (None, _) => Err(AssignmentError::UnknownVehicle),
        (Some(_), None) => Err(AssignmentError::StopNotAvailable),
        (Some(r), Some(p)) => placement_result(plan, distances, r, p),
    }
}

/// The plan after the stop `stop_id` was to be assigned to the route of
/// the vehicle `vehicle_id`.
pub open spec fn assignment(
    plan: Plan,
    distances: Map<(u32, u32), u64>,
    vehicle_id: u32,
    stop_id: u32,
) -> Plan {
    match (plan.route_of(vehicle_id), plan.pool_position(stop_id)) {
        (Some(r), Some(p)) => placement(plan, distances, r, p),
        _ => plan,
    }
}

} // verus!
