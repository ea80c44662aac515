use vstd::prelude::*;
use crate::domain::route::RouteView;
use crate::domain::stop::{Stop, stop_ids, total_usage, lemma_total_usage_push};
use crate::services::distance_service::{covers, lemma_path_length_push, lemma_path_length_short};
use crate::services::plan::{
    Plan, is_k_nearest, is_near_construction, is_near_round, is_near_visit, is_nearest,
    is_next_candidate, fleet_ids, route_lengths, route_totals,
};
use crate::sums::{sum, lemma_sum_scaled, lemma_sum_term, lemma_sum_update};

verus! {

/// The first position at which `ids` holds `id` is `index`, if `id` stands
/// there and nowhere before; there is none if `id` stands nowhere.
pub proof fn lemma_first_index(ids: Seq<u32>, id: u32, index: int)
    requires
        0 <= index <= ids.len(),
        forall|j: int| 0 <= j < index ==> ids[j] != id,
        index < ids.len() ==> ids[index] == id,
    ensures
        index < ids.len() ==> ids.index_of_first(id) == Some(index),
        index == ids.len() ==> ids.index_of_first(id) is None,
{
    ids.index_of_first_ensures(id);
}

impl Plan {
    /// An assignment that can be made leads from one reachable state to
    /// another, and places the same stops.
    pub proof fn lemma_assign_wf(self, distances: Map<(u32, u32), u64>, all: Seq<Stop>, r: int, p: int)
        requires
            self.wf(distances, all),
            self.can_assign(distances, r, p),
        ensures
            self.assign(distances, r, p).wf(distances, all),
    {
        let after = self.assign(distances, r, p);
        let stop = self.pool[p];
        let route = self.routes[r];
        let longer = after.routes[r];
        let n = route.stops.len() as int;
        // the route that grew
        lemma_total_usage_push(route.stops, stop);
        if n == 0 {
            lemma_path_length_short(distances, longer.stops);
        } else {
            lemma_path_length_push(distances, route.stops, stop);
        }
        lemma_sum_term(route_lengths(self.routes), r);
        assert(n + 1 <= u64::MAX);
        assert(route.total_distance + u64::MAX <= (n + 1) * u64::MAX <= u128::MAX)
            by (nonlinear_arith)
            requires
                route.total_distance <= n * u64::MAX,
                0 <= n,
                n + 1 <= u64::MAX,
        ;
        assert forall|q: int| 0 <= q < after.routes.len() implies (#[trigger] after.routes[q]).wf()
            && after.routes[q].measured_by(distances) by {
            if q != r {
                assert(after.routes[q] == self.routes[q]);
            }
        }
        // identities
        assert(fleet_ids(after.routes) =~= fleet_ids(self.routes));
        assert forall|a: int, b: int|
            0 <= a < after.pool.len() && 0 <= b < after.pool.len() && a != b implies stop_ids(
            after.pool,
        )[a] != stop_ids(after.pool)[b] by {
            let a0 = if a < p { a } else { a + 1 };
            let b0 = if b < p { b } else { b + 1 };
            assert(stop_ids(self.pool)[a0] != stop_ids(self.pool)[b0]);
        }
        assert forall|r1: int, i1: int, r2: int, i2: int|
            after.holds(r1, i1) && after.holds(r2, i2) && (#[trigger] after.at(r1, i1)).id == (
            #[trigger] after.at(r2, i2)).id implies r1 == r2 && i1 == i2 by {
            let new1 = r1 == r && i1 == n;
            let new2 = r2 == r && i2 == n;
            if new1 && !new2 {
                assert(after.at(r2, i2) == self.at(r2, i2));
                assert(self.at(r2, i2).id != self.pool[p].id);
            } else if new2 && !new1 {
                assert(after.at(r1, i1) == self.at(r1, i1));
                assert(self.at(r1, i1).id != self.pool[p].id);
            } else if !new1 && !new2 {
                assert(after.at(r1, i1) == self.at(r1, i1));
                assert(after.at(r2, i2) == self.at(r2, i2));
            }
        }
        assert forall|r1: int, i1: int, q: int|
            after.holds(r1, i1) && 0 <= q < after.pool.len() implies (#[trigger] after.at(r1, i1)).id
            != (#[trigger] after.pool[q]).id by {
            let q0 = if q < p { q } else { q + 1 };
            assert(after.pool[q] == self.pool[q0]);
            if r1 == r && i1 == n {
                assert(stop_ids(self.pool)[p] != stop_ids(self.pool)[q0]);
            } else {
                assert(after.at(r1, i1) == self.at(r1, i1));
                assert(self.at(r1, i1).id != self.pool[q0].id);
            }
        }
        // the same stops are placed
        assert forall|s: Stop| self.places(s) <==> after.places(s) by {
            if self.pool.contains(s) {
                let q = choose|q: int| 0 <= q < self.pool.len() && self.pool[q] == s;
                if q == p {
                    assert(after.holds(r, n) && after.at(r, n) == s);
                } else {
                    let q1 = if q < p { q } else { q - 1 };
                    assert(after.pool[q1] == s);
                }
            }
            if self.routed(s) {
                let (r1, i1) = choose|r1: int, i1: int| self.holds(r1, i1) && self.at(r1, i1) == s;
                assert(after.holds(r1, i1) && after.at(r1, i1) == s);
            }
            if after.pool.contains(s) {
                let q = choose|q: int| 0 <= q < after.pool.len() && after.pool[q] == s;
                let q0 = if q < p { q } else { q + 1 };
                assert(self.pool[q0] == s);
            }
            if after.routed(s) {
                let (r1, i1) = choose|r1: int, i1: int| after.holds(r1, i1) && after.at(r1, i1) == s;
                if r1 == r && i1 == n {
                    assert(self.pool[p] == s);
                } else {
                    assert(self.holds(r1, i1) && self.at(r1, i1) == s);
                }
            }
        }
        // the count
        assert(route_lengths(after.routes) =~= route_lengths(self.routes).update(
            r,
            (n + 1) as nat,
        ));
        lemma_sum_update(route_lengths(self.routes), r, (n + 1) as nat);
    }

    /// An assignment makes the plan grow.
    pub proof fn lemma_assign_grows(self, distances: Map<(u32, u32), u64>, r: int, p: int)
        requires
            0 <= r < self.routes.len(),
            0 <= p < self.pool.len(),
            self.routes[r].vehicle.supports(self.pool[p].usage),
        ensures
            self.assign(distances, r, p).grows_from(self),
            self.assign(distances, r, p).pool.len() == self.pool.len() - 1,
    {
        let after = self.assign(distances, r, p);
        lemma_total_usage_push(self.routes[r].stops, self.pool[p]);
        assert forall|stop: Stop| #[trigger] after.pool.contains(stop) implies self.pool.contains(
            stop,
        ) by {
            let q = choose|q: int| 0 <= q < after.pool.len() && after.pool[q] == stop;
            let q0 = if q < p { q } else { q + 1 };
            assert(self.pool[q0] == stop);
        }
    }

    /// What has grown from a plan that has grown has grown from the first.
    pub proof fn lemma_grows_transitive(self, middle: Plan, earlier: Plan)
        requires
            self.grows_from(middle),
            middle.grows_from(earlier),
        ensures
            self.grows_from(earlier),
    {
        assert forall|r: int| 0 <= r < self.routes.len() implies {
            &&& (#[trigger] self.routes[r]).vehicle.id == earlier.routes[r].vehicle.id
            &&& self.routes[r].vehicle.capacity == earlier.routes[r].vehicle.capacity
            &&& earlier.routes[r].stops.is_prefix_of(self.routes[r].stops)
        } by {
            assert(middle.routes[r].vehicle.id == earlier.routes[r].vehicle.id);
            assert(self.routes[r].vehicle.usage - total_usage(self.routes[r].stops)
                == earlier.routes[r].vehicle.usage - total_usage(earlier.routes[r].stops));
            assert(earlier.routes[r].stops =~= self.routes[r].stops.subrange(
                0,
                earlier.routes[r].stops.len() as int,
            )) by {
                assert(middle.routes[r].stops.is_prefix_of(self.routes[r].stops));
                assert(earlier.routes[r].stops.is_prefix_of(middle.routes[r].stops));
            }
        }
        assert forall|stop: Stop| #[trigger] self.pool.contains(stop) implies earlier.pool.contains(
            stop,
        ) by {
            assert(middle.pool.contains(stop));
        }
    }

    /// The routes together are no longer than the largest distance times
    /// the number of stops.
    pub proof fn lemma_total_distance_bound(self, distances: Map<(u32, u32), u64>, all: Seq<Stop>)
        requires
            self.wf(distances, all),
        ensures
            self.total_distance() <= u64::MAX * all.len() <= u128::MAX,
    {
        lemma_sum_scaled(route_totals(self.routes), route_lengths(self.routes), u64::MAX as nat);
        assert(u64::MAX * sum(route_lengths(self.routes)) <= u64::MAX * all.len() <= u128::MAX)
            by (nonlinear_arith)
            requires
                sum(route_lengths(self.routes)) <= all.len() <= u64::MAX,
        ;
    }

    /// Every stop that the plan was made for stands either in the pool or
    /// at one position of one route, and no other position of any route
    /// holds a stop of its identity. With an empty pool, every stop stands
    /// in exactly one route.
    pub proof fn lemma_each_stop_once(self, distances: Map<(u32, u32), u64>, all: Seq<Stop>, stop: Stop)
        requires
            self.wf(distances, all),
            all.contains(stop),
        ensures
            self.pool.contains(stop) ==> forall|r: int, i: int|
                self.holds(r, i) ==> (#[trigger] self.at(r, i)).id != stop.id,
            !self.pool.contains(stop) ==> exists|r: int, i: int|
                {
                    &&& self.holds(r, i)
                    &&& #[trigger] self.at(r, i) == stop
                    &&& forall|r2: int, i2: int|
                        self.holds(r2, i2) && (#[trigger] self.at(r2, i2)).id == stop.id ==> r2 == r
                            && i2 == i
                },
            self.pool.len() == 0 ==> !self.pool.contains(stop),
    {
        assert(self.places(stop));
        if self.pool.contains(stop) {
            let p = choose|p: int| 0 <= p < self.pool.len() && self.pool[p] == stop;
            assert forall|r: int, i: int| self.holds(r, i) implies (#[trigger] self.at(r, i)).id
                != stop.id by {
                assert(self.at(r, i).id != self.pool[p].id);
            }
        } else {
            let (r, i) = choose|r: int, i: int| self.holds(r, i) && #[trigger] self.at(r, i) == stop;
            assert forall|r2: int, i2: int|
                self.holds(r2, i2) && (#[trigger] self.at(r2, i2)).id == stop.id implies r2 == r && i2
                == i by {
                assert(self.at(r, i).id == self.at(r2, i2).id);
            }
        }
    }

    /// In a plan without two stops of one identity in the pool, the
    /// nearest stop of a route is the only one.
    pub proof fn lemma_nearest_unique(self, distances: Map<(u32, u32), u64>, r: int, p: int)
        requires
            stop_ids(self.pool).no_duplicates(),
            0 <= p < self.pool.len(),
            is_nearest(self.routes[r], distances, self.pool, self.pool[p]),
        ensures
            self.nearest(distances, r) == Some(p),
    {
        let q = self.nearest(distances, r).unwrap();
        assert(is_next_candidate(self.routes[r], distances, self.pool, None, self.pool[p]));
        assert(is_next_candidate(self.routes[r], distances, self.pool, None, self.pool[q]));
        assert(stop_ids(self.pool)[q] == stop_ids(self.pool)[p]);
    }

    /// A route that can take a stop of the pool next has a nearest stop.
    pub proof fn lemma_nearest_exists(self, distances: Map<(u32, u32), u64>, r: int, n: int)
        requires
            stop_ids(self.pool).no_duplicates(),
            0 <= n <= self.pool.len(),
            exists|q: int| 0 <= q < n && self.routes[r].reaches(distances, #[trigger] self.pool[q]),
        ensures
            exists|p: int|
                {
                    &&& 0 <= p < n
                    &&& self.routes[r].reaches(distances, #[trigger] self.pool[p])
                    &&& forall|q: int|
                        0 <= q < n && self.routes[r].reaches(distances, #[trigger] self.pool[q]) && q
                            != p ==> self.routes[r].prefers(distances, self.pool[p], self.pool[q])
                },
        decreases n,
    {
        let route = self.routes[r];
        let last = n - 1;
        if exists|q: int| 0 <= q < last && route.reaches(distances, #[trigger] self.pool[q]) {
            self.lemma_nearest_exists(distances, r, last);
            let best = choose|p: int|
                {
                    &&& 0 <= p < last
                    &&& route.reaches(distances, #[trigger] self.pool[p])
                    &&& forall|q: int|
                        0 <= q < last && route.reaches(distances, #[trigger] self.pool[q]) && q != p
                            ==> route.prefers(distances, self.pool[p], self.pool[q])
                };
            assert(stop_ids(self.pool)[best] != stop_ids(self.pool)[last]);
            let p = if route.reaches(distances, self.pool[last]) && route.prefers(
                distances,
                self.pool[last],
                self.pool[best],
            ) {
                last
            } else {
                best
            };
            assert(route.reaches(distances, self.pool[p]));
            assert forall|q: int|
                0 <= q < n && route.reaches(distances, #[trigger] self.pool[q]) && q
                    != p implies route.prefers(distances, self.pool[p], self.pool[q]) by {
                if q != best && q != last {
                    assert(route.prefers(distances, self.pool[best], self.pool[q]));
                }
            }
        } else {
            assert(route.reaches(distances, self.pool[last]));
        }
    }

    /// A route without a nearest stop can take no stop of the pool next.
    pub proof fn lemma_no_nearest(self, distances: Map<(u32, u32), u64>, r: int)
        requires
            stop_ids(self.pool).no_duplicates(),
            self.nearest(distances, r) is None,
        ensures
            forall|stop: Stop|
                self.pool.contains(stop) ==> !(#[trigger] self.routes[r].reaches(distances, stop)),
    {
        let route = self.routes[r];
        assert forall|stop: Stop| self.pool.contains(stop) implies !(#[trigger] route.reaches(
            distances,
            stop,
        )) by {
            if route.reaches(distances, stop) {
                let q = choose|q: int| 0 <= q < self.pool.len() && self.pool[q] == stop;
                assert(route.reaches(distances, self.pool[q]));
                self.lemma_nearest_exists(distances, r, self.pool.len() as int);
                let p = choose|p: int|
                    {
                        &&& 0 <= p < self.pool.len()
                        &&& route.reaches(distances, #[trigger] self.pool[p])
                        &&& forall|q: int|
                            0 <= q < self.pool.len() && route.reaches(
                                distances,
                                #[trigger] self.pool[q],
                            ) && q != p ==> route.prefers(distances, self.pool[p], self.pool[q])
                    };
                assert(is_next_candidate(route, distances, self.pool, None, self.pool[p]));
                assert forall|other: Stop| #[trigger]
                    is_next_candidate(route, distances, self.pool, None, other) && other.id
                        != self.pool[p].id implies route.prefers(distances, self.pool[p], other) by {
                    let k = choose|k: int| 0 <= k < self.pool.len() && self.pool[k] == other;
                    assert(route.reaches(distances, self.pool[k]));
                }
                assert(is_nearest(route, distances, self.pool, self.pool[p]));
            }
        }
    }

    /// If a vehicle can take a stop of the pool on board, there is a first
    /// such stop.
    pub proof fn lemma_first_fit_exists(self, r: int, q: int)
        requires
            0 <= q < self.pool.len(),
            self.routes[r].vehicle.supports(self.pool[q].usage),
        ensures
            self.first_fit(r) is Some,
        decreases q,
    {
        if exists|e: int| 0 <= e < q && self.routes[r].vehicle.supports((#[trigger] self.pool[e]).usage) {
            let e = choose|e: int|
                0 <= e < q && self.routes[r].vehicle.supports((#[trigger] self.pool[e]).usage);
            self.lemma_first_fit_exists(r, e);
        } else {
            assert(self.is_first_fit(r, q));
        }
    }

    /// Giving routes their starting points makes the plan grow.
    pub proof fn lemma_started_grows(self, distances: Map<(u32, u32), u64>, upto: nat)
        requires
            upto <= self.routes.len(),
        ensures
            self.started(distances, upto).grows_from(self),
        decreases upto,
    {
        if upto > 0 {
            let before = self.started(distances, (upto - 1) as nat);
            self.lemma_started_grows(distances, (upto - 1) as nat);
            let after = before.start(distances, upto - 1);
            if after != before {
                let p = before.first_fit(upto - 1).unwrap();
                assert(before.is_first_fit(upto - 1, p));
                before.lemma_assign_grows(distances, upto - 1, p);
                after.lemma_grows_transitive(before, self);
            }
        } else {
            assert forall|r: int| 0 <= r < self.routes.len() implies (
            #[trigger] self.routes[r]).stops.is_prefix_of(self.routes[r].stops) by {}
        }
    }

    /// What has grown from a plan whose first routes were started is
    /// started as far.
    pub proof fn lemma_grown_is_started(self, earlier: Plan, upto: int)
        requires
            self.grows_from(earlier),
            earlier.is_started_upto(upto),
        ensures
            self.is_started_upto(upto),
    {
        assert forall|r: int, stop: Stop|
            0 <= r < upto && r < self.routes.len() && self.routes[r].stops.len() == 0
                && self.pool.contains(stop) implies !(#[trigger] self.routes[r].vehicle.supports(
            stop.usage,
        )) by {
            assert(earlier.routes[r].stops.is_prefix_of(self.routes[r].stops));
            assert(earlier.routes[r].stops =~= self.routes[r].stops);
            assert(earlier.pool.contains(stop));
            assert(!earlier.routes[r].vehicle.supports(stop.usage));
        }
    }

    /// After the first `upto` routes were given their starting points,
    /// they are started.
    pub proof fn lemma_started_is_started(self, distances: Map<(u32, u32), u64>, upto: nat)
        requires
            upto <= self.routes.len(),
        ensures
            self.started(distances, upto).is_started_upto(upto as int),
            self.started(distances, upto).routes.len() == self.routes.len(),
        decreases upto,
    {
        if upto > 0 {
            let r = upto - 1;
            let before = self.started(distances, r as nat);
            self.lemma_started_is_started(distances, r as nat);
            let after = before.start(distances, r);
            if before.routes[r].stops.len() == 0 {
                if let Some(p) = before.first_fit(r) {
                    assert(before.is_first_fit(r, p));
                    before.lemma_assign_grows(distances, r, p);
                    after.lemma_grown_is_started(before, r);
                } else {
                    assert forall|stop: Stop| before.pool.contains(stop) implies !(
                    #[trigger] before.routes[r].vehicle.supports(stop.usage)) by {
                        if before.routes[r].vehicle.supports(stop.usage) {
                            let q = choose|q: int| 0 <= q < before.pool.len() && before.pool[q] == stop;
                            before.lemma_first_fit_exists(r, q);
                        }
                    }
                }
            }
        }
    }

    /// A round keeps the number of routes and places stops of the pool, so
    /// that the pool does not grow.
    pub proof fn lemma_visited_shrinks(self, distances: Map<(u32, u32), u64>, upto: nat)
        requires
            upto <= self.routes.len(),
        ensures
            self.visited(distances, upto).routes.len() == self.routes.len(),
            self.visited(distances, upto).pool.len() <= self.pool.len(),
        decreases upto,
    {
        if upto > 0 {
            self.lemma_visited_shrinks(distances, (upto - 1) as nat);
        }
    }

    /// A round leads from one reachable state to another, and makes the
    /// plan grow.
    pub proof fn lemma_visited_wf(self, distances: Map<(u32, u32), u64>, all: Seq<Stop>, upto: nat)
        requires
            self.wf(distances, all),
            upto <= self.routes.len(),
        ensures
            self.visited(distances, upto).wf(distances, all),
            self.visited(distances, upto).grows_from(self),
        decreases upto,
    {
        if upto > 0 {
            let before = self.visited(distances, (upto - 1) as nat);
            self.lemma_visited_wf(distances, all, (upto - 1) as nat);
            if let Some(p) = before.nearest(distances, upto - 1) {
                assert(is_next_candidate(
                    before.routes[upto - 1],
                    distances,
                    before.pool,
                    None,
                    before.pool[p],
                ));
                before.lemma_assign_wf(distances, all, upto - 1, p);
                before.lemma_assign_grows(distances, upto - 1, p);
                before.assign(distances, upto - 1, p).lemma_grows_transitive(before, self);
            }
        } else {
            self.lemma_started_grows(distances, 0);
        }
    }

    /// A round that places no stop leaves the plan as it was, and then no
    /// route of the round can take a stop of the pool next.
    pub proof fn lemma_visited_unchanged(self, distances: Map<(u32, u32), u64>, all: Seq<Stop>, upto: nat)
        requires
            self.wf(distances, all),
            upto <= self.routes.len(),
            self.visited(distances, upto).pool.len() == self.pool.len(),
        ensures
            self.visited(distances, upto) == self,
            forall|r: int, stop: Stop|
                0 <= r < upto && self.pool.contains(stop) ==> !(#[trigger] self.routes[r].reaches(
                    distances,
                    stop,
                )),
        decreases upto,
    {
        if upto > 0 {
            let before = self.visited(distances, (upto - 1) as nat);
            self.lemma_visited_shrinks(distances, (upto - 1) as nat);
            if let Some(p) = before.nearest(distances, upto - 1) {
                assert(is_next_candidate(
                    before.routes[upto - 1],
                    distances,
                    before.pool,
                    None,
                    before.pool[p],
                ));
                before.lemma_assign_grows(distances, upto - 1, p);
            }
            self.lemma_visited_unchanged(distances, all, (upto - 1) as nat);
            self.lemma_no_nearest(distances, upto - 1);
        }
    }

    /// Construction leads to a reachable state that has grown from the
    /// first, and ends where the pool holds no stop that a vehicle could
    /// take on board, or where no route can take a stop of the pool next.
    pub proof fn lemma_constructed_settles(self, distances: Map<(u32, u32), u64>, all: Seq<Stop>)
        requires
            self.wf(distances, all),
        ensures
            self.constructed(distances).wf(distances, all),
            self.constructed(distances).grows_from(self),
            !self.constructed(distances).has_available_stop() || self.constructed(
                distances,
            ).stalled(distances),
        decreases self.pool.len(),
    {
        if !self.has_available_stop() {
            self.lemma_started_grows(distances, 0);
        } else {
            let next = self.visited(distances, self.routes.len());
            self.lemma_visited_wf(distances, all, self.routes.len());
            self.lemma_visited_shrinks(distances, self.routes.len());
            if next.pool.len() < self.pool.len() {
                next.lemma_constructed_settles(distances, all);
                next.constructed(distances).lemma_grows_transitive(next, self);
            } else {
                self.lemma_visited_unchanged(distances, all, self.routes.len());
            }
        }
    }

    /// Where the distances between all stops are known, the routes are
    /// started, and no route can take a stop of the pool next, the pool
    /// holds no stop that a vehicle could take on board.
    pub proof fn lemma_stalled_is_done(self, distances: Map<(u32, u32), u64>, all: Seq<Stop>)
        requires
            self.wf(distances, all),
            self.is_started(),
            self.stalled(distances),
            covers(distances, all),
        ensures
            !self.has_available_stop(),
    {
        if self.has_available_stop() {
            let (r, p) = choose|r: int, p: int|
                0 <= r < self.routes.len() && 0 <= p < self.pool.len() && (
                #[trigger] self.routes[r]).vehicle.supports((#[trigger] self.pool[p]).usage);
            let stop = self.pool[p];
            assert(self.pool.contains(stop));
            assert(self.places(stop));
            if self.routes[r].stops.len() > 0 {
                let i = self.routes[r].stops.len() - 1;
                let tail = self.at(r, i);
                assert(self.holds(r, i));
                assert(self.routed(tail));
                assert(self.places(tail));
                assert(tail.id != self.pool[p].id);
                assert(distances.contains_key((tail.id, stop.id)));
                assert(self.routes[r].reaches(distances, stop));
            }
        }
    }
}

/// Two lists of the `k` nearest stops agree in their first `n` stops.
pub proof fn lemma_k_nearest_prefix(
    route: RouteView,
    distances: Map<(u32, u32), u64>,
    pool: Seq<Stop>,
    a: Seq<Stop>,
    b: Seq<Stop>,
    k: nat,
    n: nat,
)
    requires
        stop_ids(pool).no_duplicates(),
        is_k_nearest(route, distances, pool, a, k),
        is_k_nearest(route, distances, pool, b, k),
        n <= a.len(),
        n <= b.len(),
    ensures
        forall|m: int| 0 <= m < n ==> a[m] == b[m],
    decreases n,
{
    if n > 0 {
        lemma_k_nearest_prefix(route, distances, pool, a, b, k, (n - 1) as nat);
        let i = n - 1;
        if a[i] != b[i] {
            assert(pool.contains(a[i]) && pool.contains(b[i]));
            // each of the two comes before the other
            assert(route.prefers(distances, b[i], a[i])) by {
                if b.contains(a[i]) {
                    let m = choose|m: int| 0 <= m < b.len() && b[m] == a[i];
                    if m < i {
                        assert(a[m] == b[m]);
                        assert(route.prefers(distances, a[m], a[i]));
                    }
                    assert(route.prefers(distances, b[i], b[m]));
                } else {
                    assert(route.reaches(distances, a[i]));
                }
            }
            assert(route.prefers(distances, a[i], b[i])) by {
                if a.contains(b[i]) {
                    let m = choose|m: int| 0 <= m < a.len() && a[m] == b[i];
                    if m < i {
                        assert(a[m] == b[m]);
                        assert(route.prefers(distances, b[m], b[i]));
                    }
                    assert(route.prefers(distances, a[i], a[m]));
                } else {
                    assert(route.reaches(distances, b[i]));
                }
            }
        }
    }
}

/// There is only one list of the `k` nearest stops.
pub proof fn lemma_k_nearest_unique(
    route: RouteView,
    distances: Map<(u32, u32), u64>,
    pool: Seq<Stop>,
    a: Seq<Stop>,
    b: Seq<Stop>,
    k: nat,
)
    requires
        stop_ids(pool).no_duplicates(),
        is_k_nearest(route, distances, pool, a, k),
        is_k_nearest(route, distances, pool, b, k),
    ensures
        a == b,
{
    let n = if a.len() <= b.len() { a.len() } else { b.len() };
    lemma_k_nearest_prefix(route, distances, pool, a, b, k, n);
    let (short, long) = if a.len() <= b.len() { (a, b) } else { (b, a) };
    if short.len() < long.len() {
        let extra = long[short.len() as int];
        assert(pool.contains(extra) && route.reaches(distances, extra));
        if short.contains(extra) {
            let m = choose|m: int| 0 <= m < short.len() && short[m] == extra;
            assert(long[m] == extra);
            assert(route.prefers(distances, long[m], long[short.len() as int]));
        }
    }
    assert(a =~= b);
}

/// The first of the nearest stops is the nearest stop, and there are no
/// nearest stops only if the route can take no stop of the pool next.
pub proof fn lemma_k_nearest_first(
    route: RouteView,
    distances: Map<(u32, u32), u64>,
    pool: Seq<Stop>,
    list: Seq<Stop>,
    k: nat,
)
    requires
        is_k_nearest(route, distances, pool, list, k),
        k > 0,
    ensures
        list.len() > 0 ==> is_nearest(route, distances, pool, list[0]),
        list.len() == 0 ==> forall|stop: Stop|
            pool.contains(stop) ==> !(#[trigger] route.reaches(distances, stop)),
{
    if list.len() > 0 {
        assert(is_next_candidate(route, distances, pool, None, list[0]));
        assert forall|other: Stop| #[trigger]
            is_next_candidate(route, distances, pool, None, other) && other.id
                != list[0].id implies route.prefers(distances, list[0], other) by {
            if list.contains(other) {
                let m = choose|m: int| 0 <= m < list.len() && list[m] == other;
                assert(route.prefers(distances, list[0], list[m]));
            } else {
                assert(route.reaches(distances, other));
            }
        }
    } else {
        assert forall|stop: Stop| pool.contains(stop) implies !(#[trigger] route.reaches(
            distances,
            stop,
        )) by {
            assert(!list.contains(stop));
        }
    }
}

/// A round goes on with the visit of the next route.
pub proof fn lemma_near_round_step(
    start: Plan,
    middle: Plan,
    after: Plan,
    distances: Map<(u32, u32), u64>,
    k: nat,
    upto: nat,
)
    requires
        is_near_round(start, middle, distances, k, upto),
        is_near_visit(middle, after, distances, k, upto as int),
    ensures
        is_near_round(start, after, distances, k, upto + 1),
{
    assert(is_near_visit(middle, after, distances, k, (upto + 1) - 1));
}

/// A construction goes on with a further round.
pub proof fn lemma_near_construction_step(
    start: Plan,
    middle: Plan,
    after: Plan,
    distances: Map<(u32, u32), u64>,
    k: nat,
    rounds: nat,
)
    requires
        is_near_construction(start, middle, distances, k, rounds),
        middle.has_available_stop(),
        is_near_round(middle, after, distances, k, middle.routes.len()),
    ensures
        is_near_construction(start, after, distances, k, rounds + 1),
{
    assert(is_near_construction(start, middle, distances, k, ((rounds + 1) - 1) as nat));
}

/// A route that chooses among one nearest stop takes the nearest.
pub proof fn lemma_near_visit_of_one(
    before: Plan,
    after: Plan,
    distances: Map<(u32, u32), u64>,
    r: int,
)
    requires
        stop_ids(before.pool).no_duplicates(),
        is_near_visit(before, after, distances, 1, r),
    ensures
        after == before.visit(distances, r),
{
    let route = before.routes[r];
    let list = choose|list: Seq<Stop>|
        {
            &&& #[trigger] is_k_nearest(route, distances, before.pool, list, 1)
            &&& if list.len() == 0 {
                after == before
            } else {
                exists|p: int|
                    0 <= p < before.pool.len() && list.contains(#[trigger] before.pool[p]) && after
                        == before.assign(distances, r, p)
            }
        };
    lemma_k_nearest_first(route, distances, before.pool, list, 1);
    if list.len() == 0 {
        if let Some(p) = before.nearest(distances, r) {
            assert(is_next_candidate(route, distances, before.pool, None, before.pool[p]));
        }
    } else {
        let p = choose|p: int|
            0 <= p < before.pool.len() && list.contains(#[trigger] before.pool[p]) && after
                == before.assign(distances, r, p);
        let i = choose|i: int| 0 <= i < list.len() && list[i] == before.pool[p];
        before.lemma_nearest_unique(distances, r, p);
    }
}

/// A round in which every route chooses among one nearest stop is a round
/// in which every route takes the nearest.
pub proof fn lemma_near_round_of_one(
    start: Plan,
    after: Plan,
    distances: Map<(u32, u32), u64>,
    all: Seq<Stop>,
    upto: nat,
)
    requires
        start.wf(distances, all),
        upto <= start.routes.len(),
        is_near_round(start, after, distances, 1, upto),
    ensures
        after == start.visited(distances, upto),
    decreases upto,
{
    if upto > 0 {
        let middle = choose|middle: Plan|
            {
                &&& is_near_round(start, middle, distances, 1, (upto - 1) as nat)
                &&& #[trigger] is_near_visit(middle, after, distances, 1, upto - 1)
            };
        lemma_near_round_of_one(start, middle, distances, all, (upto - 1) as nat);
        start.lemma_visited_wf(distances, all, (upto - 1) as nat);
        lemma_near_visit_of_one(middle, after, distances, upto - 1);
    }
}

} // verus!
