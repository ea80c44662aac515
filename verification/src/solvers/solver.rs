use std::collections::HashMap;
use vstd::prelude::*;
use crate::domain::route::Route;
use crate::domain::stop::Stop;
use crate::services::plan::{Plan, fleet_ids};
use crate::services::route_service::RouteService;

verus! {

/// A finished assignment: the route of each vehicle, by the vehicle's
/// identity.
pub type Solution = HashMap<u32, Route>;

/// Whether `solution` holds the routes of `plan`, each under the identity
/// of its vehicle, and nothing else.
pub open spec fn is_solution_of(solution: Map<u32, Route>, plan: Plan) -> bool {
    forall|id: u32|
        match #[trigger] plan.route_of(id) {
            Some(r) => solution.contains_key(id) && solution[id]@ == plan.routes[r],
            None => !solution.contains_key(id),
        }
}

/// Once the pool is empty, every stop that the plan was made for stands in
/// the route of exactly one vehicle of the solution, at exactly one
/// position.
pub proof fn lemma_solution_holds_each_stop_once(
    solution: Map<u32, Route>,
    plan: Plan,
    distances: Map<(u32, u32), u64>,
    all: Seq<Stop>,
    stop: Stop,
)
    requires
        plan.wf(distances, all),
        is_solution_of(solution, plan),
        plan.pool.len() == 0,
        all.contains(stop),
    ensures
        exists|id: u32, i: int|
            {
                &&& solution.contains_key(id)
                &&& 0 <= i < solution[id]@.stops.len()
                &&& #[trigger] solution[id]@.stops[i] == stop
                &&& forall|other: u32, j: int|
                    solution.contains_key(other) && 0 <= j < solution[other]@.stops.len() && (
                    #[trigger] solution[other]@.stops[j]).id == stop.id ==> other == id && j == i
            },
{
    plan.lemma_each_stop_once(distances, all, stop);
    let (r, i) = choose|r: int, i: int|
        {
            &&& plan.holds(r, i)
            &&& #[trigger] plan.at(r, i) == stop
            &&& forall|r2: int, i2: int|
                plan.holds(r2, i2) && (#[trigger] plan.at(r2, i2)).id == stop.id ==> r2 == r && i2 == i
        };
    let ids = fleet_ids(plan.routes);
    let id = ids[r];
    assert(plan.route_of(id) == Some(r)) by {
        ids.index_of_first_ensures(id);
    }
    assert(solution[id]@ == plan.routes[r]);
    assert(solution[id]@.stops[i] == stop);
    assert forall|other: u32, j: int|
        solution.contains_key(other) && 0 <= j < solution[other]@.stops.len() && (
        #[trigger] solution[other]@.stops[j]).id == stop.id implies other == id && j == i by {
        ids.index_of_first_ensures(other);
        let r2 = plan.route_of(other).unwrap();
        assert(solution[other]@ == plan.routes[r2]);
        assert(plan.holds(r2, j) && plan.at(r2, j).id == stop.id);
        assert(ids[r2] == other);
    }
}

/// The identities of the vehicles of `route_service`, in the order of its
/// routes.
pub fn get_all_vehicle_ids(route_service: &RouteService) -> (ids: Vec<u32>)
    ensures
        ids@ == fleet_ids(route_service.plan().routes),
{
    let routes = route_service.get_all_routes();
    let ghost plan = route_service.plan();
    let mut ids: Vec<u32> = Vec::new();
    let mut r: usize = 0;
    while r < routes.len()
        invariant
            routes@.map_values(|route: Route| route@) == plan.routes,
            r <= routes@.len(),
            ids@ == fleet_ids(plan.routes).take(r as int),
        decreases routes@.len() - r,
    {
        proof {
            assert(plan.routes[r as int] == routes@[r as int]@);
            assert(fleet_ids(plan.routes).take(r as int).push(fleet_ids(plan.routes)[r as int])
                =~= fleet_ids(plan.routes).take(r + 1));
        }
        ids.push(routes[r].get_vehicle().get_id());
        r = r + 1;
    }
    proof {
        assert(plan.routes.len() == routes@.len());
        assert(fleet_ids(plan.routes).take(r as int) =~= fleet_ids(plan.routes));
    }
    ids
}

/// The routes of `route_service` as they are now, by the identity of
/// their vehicles.
pub fn construct_solutions(route_service: &RouteService) -> (solution: Solution)
    requires
        route_service.wf(),
    ensures
        is_solution_of(solution@, route_service.plan()),
{
    broadcast use vstd::std_specs::hash::group_hash_axioms;

    let routes = route_service.get_all_routes();
    let ghost plan = route_service.plan();
    let ghost ids = fleet_ids(plan.routes);
    let mut solution: Solution = HashMap::new();
    let mut r: usize = 0;
    while r < routes.len()
        invariant
            routes@.map_values(|route: Route| route@) == plan.routes,
            ids == fleet_ids(plan.routes),
            ids.no_duplicates(),
            r <= routes@.len(),
            forall|id: u32| #[trigger]
                solution@.contains_key(id) <==> exists|v: int| 0 <= v < r && ids[v] == id,
            forall|v: int| 0 <= v < r ==> (#[trigger] solution@[ids[v]])@ == plan.routes[v],
        decreases routes@.len() - r,
    {
        let ghost before = solution@;
        let id = routes[r].get_vehicle().get_id();
        proof {
            assert(plan.routes[r as int] == routes@[r as int]@);
            assert(ids[r as int] == id);
        }
        solution.insert(id, routes[r].clone());
        proof {
            assert forall|key: u32| #[trigger]
                solution@.contains_key(key) <==> exists|v: int| 0 <= v < r + 1 && ids[v] == key by {
                if before.contains_key(key) {
                    let v = choose|v: int| 0 <= v < r && ids[v] == key;
                    assert(0 <= v < r + 1 && ids[v] == key);
                }
            }
            assert forall|v: int| 0 <= v < r + 1 implies (#[trigger] solution@[ids[v]])@
                == plan.routes[v] by {
                if v < r {
                    assert(ids[v] != ids[r as int]);
                    assert(before[ids[v]]@ == plan.routes[v]);
                }
            }
        }
        r = r + 1;
    }
    proof {
        assert(plan.routes.len() == routes@.len());
        assert forall|id: u32|
            match #[trigger] plan.route_of(id) {
                Some(v) => solution@.contains_key(id) && solution@[id]@ == plan.routes[v],
                None => !solution@.contains_key(id),
            } by {
            ids.index_of_first_ensures(id);
            if let Some(v) = plan.route_of(id) {
                assert(ids[v] == id);
                assert(solution@[ids[v]]@ == plan.routes[v]);
            } else {
                if solution@.contains_key(id) {
                    let v = choose|v: int| 0 <= v < r && ids[v] == id;
                    assert(ids.contains(id));
                }
            }
        }
    }
    solution
}

} // verus!
