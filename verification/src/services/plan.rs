use vstd::prelude::*;
use crate::domain::route::RouteView;
use crate::domain::stop::{Stop, stop_ids, total_usage};
use crate::sums::sum;

verus! {

/// The identities of the vehicles of a sequence of routes, in order.
pub open spec fn fleet_ids(routes: Seq<RouteView>) -> Seq<u32> {
    routes.map_values(|route: RouteView| route.vehicle.id)
}

/// The distances recorded for a sequence of routes, in order.
pub open spec fn route_totals(routes: Seq<RouteView>) -> Seq<nat> {
    routes.map_values(|route: RouteView| route.total_distance as nat)
}

/// The numbers of stops of a sequence of routes, in order.
pub open spec fn route_lengths(routes: Seq<RouteView>) -> Seq<nat> {
    routes.map_values(|route: RouteView| route.stops.len())
}

/// Whether `stop` is a stop of `pool` that can follow the last stop of
/// `route` and, if `after` is given, comes after it.
pub open spec fn is_next_candidate(
    route: RouteView,
    distances: Map<(u32, u32), u64>,
    pool: Seq<Stop>,
    after: Option<Stop>,
    stop: Stop,
) -> bool {
    &&& pool.contains(stop)
    &&& route.reaches(distances, stop)
    &&& after matches Some(bound) ==> route.prefers(distances, bound, stop)
}

/// Whether `stop` is the first of the candidates of `pool` for `route`
/// that come after `after`.
pub open spec fn is_next_nearest(
    route: RouteView,
    distances: Map<(u32, u32), u64>,
    pool: Seq<Stop>,
    after: Option<Stop>,
    stop: Stop,
) -> bool {
    &&& is_next_candidate(route, distances, pool, after, stop)
    &&& forall|other: Stop| #[trigger]
        is_next_candidate(route, distances, pool, after, other) && other.id != stop.id
            ==> route.prefers(distances, stop, other)
}

/// Whether `stop` is the stop of `pool` that `route` can take next and
/// that is nearest to its last stop; of several as near, the one of
/// smallest identity.
pub open spec fn is_nearest(
    route: RouteView,
    distances: Map<(u32, u32), u64>,
    pool: Seq<Stop>,
    stop: Stop,
) -> bool {
    is_next_nearest(route, distances, pool, None, stop)
}

/// Whether `list` holds the `k` stops of `pool` that `route` can take
/// next and that are nearest to its last stop, or all that it can take if
/// they are fewer, in order of distance and then of identity.
pub open spec fn is_k_nearest(
    route: RouteView,
    distances: Map<(u32, u32), u64>,
    pool: Seq<Stop>,
    list: Seq<Stop>,
    k: nat,
) -> bool {
    &&& list.len() <= k
    &&& forall|i: int|
        0 <= i < list.len() ==> pool.contains(#[trigger] list[i]) && route.reaches(distances, list[i])
    &&& forall|i: int, j: int|
        0 <= i < j < list.len() ==> route.prefers(distances, #[trigger] list[i], #[trigger] list[j])
    &&& forall|stop: Stop|
        pool.contains(stop) && #[trigger] route.reaches(distances, stop) && !list.contains(stop)
            ==> list.len() == k && forall|i: int|
            0 <= i < list.len() ==> route.prefers(distances, #[trigger] list[i], stop)
}

/// The state of an assignment: one route for each vehicle, and the pool of
/// the stops that no route holds yet.
pub struct Plan {
    pub routes: Seq<RouteView>,
    pub pool: Seq<Stop>,
}

impl Plan {
    /// Whether route `r` has a position `i`.
    pub open spec fn holds(self, r: int, i: int) -> bool {
        0 <= r < self.routes.len() && 0 <= i < self.routes[r].stops.len()
    }

    /// The stop at position `i` of route `r`.
    pub open spec fn at(self, r: int, i: int) -> Stop {
        self.routes[r].stops[i]
    }

    /// Whether some route holds `stop`.
    pub open spec fn routed(self, stop: Stop) -> bool {
        exists|r: int, i: int| self.holds(r, i) && #[trigger] self.at(r, i) == stop
    }

    /// Whether `stop` is in a route or in the pool.
    pub open spec fn places(self, stop: Stop) -> bool {
        self.pool.contains(stop) || self.routed(stop)
    }

    /// No identity occurs at two positions of the routes.
    pub open spec fn routes_disjoint(self) -> bool {
        forall|r1: int, i1: int, r2: int, i2: int|
            self.holds(r1, i1) && self.holds(r2, i2) && (#[trigger] self.at(r1, i1)).id == (
            #[trigger] self.at(r2, i2)).id ==> r1 == r2 && i1 == i2
    }

    /// No identity occurs both in a route and in the pool.
    pub open spec fn pool_disjoint(self) -> bool {
        forall|r: int, i: int, p: int|
            self.holds(r, i) && 0 <= p < self.pool.len() ==> (#[trigger] self.at(r, i)).id != (
            #[trigger] self.pool[p]).id
    }

    /// The plan is a state that assigning the stops of `all` under
    /// `distances` can reach: every route respects its vehicle's capacity
    /// and records the length of its path, no two vehicles and no two
    /// placed stops share an identity, and the routes and the pool hold
    /// the stops of `all`, each once.
    pub open spec fn wf(self, distances: Map<(u32, u32), u64>, all: Seq<Stop>) -> bool {
        &&& forall|r: int|
            0 <= r < self.routes.len() ==> (#[trigger] self.routes[r]).wf()
                && self.routes[r].measured_by(distances)
        &&& fleet_ids(self.routes).no_duplicates()
        &&& stop_ids(self.pool).no_duplicates()
        &&& self.routes_disjoint()
        &&& self.pool_disjoint()
        &&& forall|stop: Stop| #[trigger] all.contains(stop) <==> self.places(stop)
        &&& sum(route_lengths(self.routes)) + self.pool.len() == all.len()
        &&& all.len() <= usize::MAX
    }

    /// The position of the route of the vehicle `vehicle_id`, if there is
    /// one.
    pub open spec fn route_of(self, vehicle_id: u32) -> Option<int> {
        fleet_ids(self.routes).index_of_first(vehicle_id)
    }

    /// The position in the pool of the stop `stop_id`, if it is there.
    pub open spec fn pool_position(self, stop_id: u32) -> Option<int> {
        stop_ids(self.pool).index_of_first(stop_id)
    }

    /// The distance recorded for all routes together.
    pub open spec fn total_distance(self) -> nat {
        sum(route_totals(self.routes))
    }

    /// Whether the pool holds a stop that some vehicle could still take on
    /// board.
    pub open spec fn has_available_stop(self) -> bool {
        exists|r: int, p: int|
            0 <= r < self.routes.len() && 0 <= p < self.pool.len() && (
            #[trigger] self.routes[r]).vehicle.supports((#[trigger] self.pool[p]).usage)
    }

    /// Whether the stop at position `p` of the pool can go to the end of
    /// route `r`: the vehicle can take its demand, and the distance from
    /// the route's last stop, if it has one, is known.
    pub open spec fn can_assign(self, distances: Map<(u32, u32), u64>, r: int, p: int) -> bool {
        &&& 0 <= r < self.routes.len()
        &&& 0 <= p < self.pool.len()
        &&& self.routes[r].vehicle.supports(self.pool[p].usage)
        &&& self.routes[r].stops.len() > 0 ==> distances.contains_key(
            (self.routes[r].stops.last().id, self.pool[p].id),
        )
    }

    /// The distance over which the stop at position `p` of the pool is
    /// reached from the end of route `r`: zero for the first stop of a
    /// route.
    pub open spec fn entry_distance(self, distances: Map<(u32, u32), u64>, r: int, p: int) -> u64 {
        if self.routes[r].stops.len() == 0 {
            0
        } else {
            distances[(self.routes[r].stops.last().id, self.pool[p].id)]
        }
    }

    /// The plan after the stop at position `p` of the pool has gone to the
    /// end of route `r`.
    pub open spec fn assign(self, distances: Map<(u32, u32), u64>, r: int, p: int) -> Plan {
        Plan {
            routes: self.routes.update(
                r,
                self.routes[r].with_stop(self.pool[p], self.entry_distance(distances, r, p)),
            ),
            pool: self.pool.remove(p),
        }
    }

    /// The position in the pool of the stop that route `r` takes next if
    /// it takes the nearest; absent if it can take none.
    pub open spec fn nearest(self, distances: Map<(u32, u32), u64>, r: int) -> Option<int> {
        if exists|p: int|
            0 <= p < self.pool.len() && is_nearest(
                self.routes[r],
                distances,
                self.pool,
                #[trigger] self.pool[p],
            ) {
            Some(
                choose|p: int|
                    0 <= p < self.pool.len() && is_nearest(
                        self.routes[r],
                        distances,
                        self.pool,
                        #[trigger] self.pool[p],
                    ),
            )
        } else {
            None
        }
    }

    /// The stop that the vehicle `vehicle_id` takes next if it takes the
    /// nearest; absent if it has no route or can take none.
    pub open spec fn nearest_stop(self, distances: Map<(u32, u32), u64>, vehicle_id: u32) -> Option<
        Stop,
    > {
        match self.route_of(vehicle_id) {
            Some(r) => match self.nearest(distances, r) {
                Some(p) => Some(self.pool[p]),
                None => None,
            },
            None => None,
        }
    }

    /// Whether position `p` is the first of the pool whose stop the vehicle
    /// of route `r` can take on board.
    pub open spec fn is_first_fit(self, r: int, p: int) -> bool {
        &&& 0 <= p < self.pool.len()
        &&& self.routes[r].vehicle.supports(self.pool[p].usage)
        &&& forall|q: int| 0 <= q < p ==> !self.routes[r].vehicle.supports((#[trigger] self.pool[q]).usage)
    }

    /// The first position of the pool whose stop the vehicle of route `r`
    /// can take on board.
    pub open spec fn first_fit(self, r: int) -> Option<int> {
        if exists|p: int| self.is_first_fit(r, p) {
            Some(choose|p: int| self.is_first_fit(r, p))
        } else {
            None
        }
    }

    /// The plan after route `r` was given its starting point: if it has no
    /// stop, the first stop of the pool that its vehicle can take on board
    /// becomes its first, over no distance.
    pub open spec fn start(self, distances: Map<(u32, u32), u64>, r: int) -> Plan {
        if self.routes[r].stops.len() == 0 {
            match self.first_fit(r) {
                Some(p) => self.assign(distances, r, p),
                None => self,
            }
        } else {
            self
        }
    }

    /// The plan after the first `upto` routes were given their starting
    /// points, one after the other.
    pub open spec fn started(self, distances: Map<(u32, u32), u64>, upto: nat) -> Plan
        decreases upto,
    {
        if upto == 0 {
            self
        } else {
            self.started(distances, (upto - 1) as nat).start(distances, upto - 1)
        }
    }

    /// The plan after route `r` has taken the nearest stop that it can
    /// take, if there is one.
    pub open spec fn visit(self, distances: Map<(u32, u32), u64>, r: int) -> Plan {
        match self.nearest(distances, r) {
            Some(p) => self.assign(distances, r, p),
            None => self,
        }
    }

    /// The plan after each of the first `upto` routes, in order, has taken
    /// the nearest stop that it could take.
    pub open spec fn visited(self, distances: Map<(u32, u32), u64>, upto: nat) -> Plan
        decreases upto,
    {
        if upto == 0 {
            self
        } else {
            self.visited(distances, (upto - 1) as nat).visit(distances, upto - 1)
        }
    }

    /// The plan after rounds in which every route in turn takes the
    /// nearest stop that it can take, until the pool holds no stop that a
    /// vehicle could take on board or a round places none.
    pub open spec fn constructed(self, distances: Map<(u32, u32), u64>) -> Plan
        decreases self.pool.len(),
    {
        if !self.has_available_stop() {
            self
        } else {
            let next = self.visited(distances, self.routes.len());
            if next.pool.len() < self.pool.len() {
                next.constructed(distances)
            } else {
                next
            }
        }
    }

    /// Whether the plan can have come from `earlier` by assignments: it
    /// has the same vehicles, every route begins with the stops that it had
    /// before, and the pool holds no stop that it did not hold before.
    pub open spec fn grows_from(self, earlier: Plan) -> bool {
        &&& self.routes.len() == earlier.routes.len()
        &&& forall|r: int|
            0 <= r < self.routes.len() ==> {
                &&& (#[trigger] self.routes[r]).vehicle.id == earlier.routes[r].vehicle.id
                &&& self.routes[r].vehicle.capacity == earlier.routes[r].vehicle.capacity
                &&& earlier.routes[r].stops.is_prefix_of(self.routes[r].stops)
                &&& self.routes[r].vehicle.usage - total_usage(self.routes[r].stops)
                    == earlier.routes[r].vehicle.usage - total_usage(earlier.routes[r].stops)
            }
        &&& forall|stop: Stop| #[trigger] self.pool.contains(stop) ==> earlier.pool.contains(stop)
        &&& self.pool.len() <= earlier.pool.len()
    }

    /// Whether each of the first `upto` routes has a stop, or a vehicle
    /// that can take no stop of the pool on board.
    pub open spec fn is_started_upto(self, upto: int) -> bool {
        forall|r: int, stop: Stop|
            0 <= r < upto && r < self.routes.len() && self.routes[r].stops.len() == 0
                && self.pool.contains(stop) ==> !(#[trigger] self.routes[r].vehicle.supports(
                stop.usage,
            ))
    }

    /// Whether every route has a stop, or a vehicle that can take no stop
    /// of the pool on board.
    pub open spec fn is_started(self) -> bool {
        self.is_started_upto(self.routes.len() as int)
    }

    /// Whether no route can take a stop of the pool next.
    pub open spec fn stalled(self, distances: Map<(u32, u32), u64>) -> bool {
        forall|r: int, stop: Stop|
            0 <= r < self.routes.len() && self.pool.contains(stop) ==> !(
            #[trigger] self.routes[r].reaches(distances, stop))
    }
}

/// Whether `after` is what `before` becomes when route `r` takes one of
/// the `k` stops nearest to it, or is `before` if there is none.
pub open spec fn is_near_visit(
    before: Plan,
    after: Plan,
    distances: Map<(u32, u32), u64>,
    k: nat,
    r: int,
) -> bool {
    exists|list: Seq<Stop>|
        {
            &&& #[trigger] is_k_nearest(before.routes[r], distances, before.pool, list, k)
            &&& if list.len() == 0 {
                after == before
            } else {
                exists|p: int|
                    0 <= p < before.pool.len() && list.contains(#[trigger] before.pool[p]) && after
                        == before.assign(distances, r, p)
            }
        }
}

/// Whether `after` is what `start` can become in a round in which each of
/// the first `upto` routes, in order, takes one of the `k` stops nearest
/// to it.
pub open spec fn is_near_round(
    start: Plan,
    after: Plan,
    distances: Map<(u32, u32), u64>,
    k: nat,
    upto: nat,
) -> bool
    decreases upto,
{
    if upto == 0 {
        after == start
    } else {
        exists|middle: Plan|
            {
                &&& is_near_round(start, middle, distances, k, (upto - 1) as nat)
                &&& #[trigger] is_near_visit(middle, after, distances, k, upto - 1)
            }
    }
}

/// Whether `after` is what `start` can become in `rounds` such rounds over
/// all routes, each begun with a stop in the pool that a vehicle could
/// take on board.
pub open spec fn is_near_construction(
    start: Plan,
    after: Plan,
    distances: Map<(u32, u32), u64>,
    k: nat,
    rounds: nat,
) -> bool
    decreases rounds,
{
    if rounds == 0 {
        after == start
    } else {
        exists|middle: Plan|
            {
                &&& is_near_construction(start, middle, distances, k, (rounds - 1) as nat)
                &&& middle.has_available_stop()
                &&& #[trigger] is_near_round(middle, after, distances, k, middle.routes.len())
            }
    }
}

} // verus!
