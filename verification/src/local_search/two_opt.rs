use vstd::prelude::*;
use crate::domain::route::Route;
use crate::domain::stop::{Stop, exchanged, lemma_exchanged_permutes};
use crate::services::distance_service::{
    DistanceMatrix, leg, legs, path_known, path_length, lemma_path_length_bound,
};
use crate::stop_swapper::{StopSwapper, is_minimum_swap, minimum_swap};
use crate::stop_swapper::path::{Path, path_around, path_over};
use crate::sums::lemma_sum_update;

verus! {

/// Whether `path` has the cost that `distances` give it.
pub open spec fn path_is_costed(distances: Map<(u32, u32), u64>, path: Path) -> bool {
    path_over(distances, path.prev, path.current, path.next) == Some(path)
}

/// The exchange that the search makes for `path` within `stops`: the
/// position of the first candidate of least cost and what the exchange
/// saves, if the cost of the exchange is less than what the two paths cost
/// now; absent otherwise, and absent if there is no candidate or the
/// exchange with one of the candidates cannot be costed.
pub open spec fn improvement(distances: Map<(u32, u32), u64>, path: Path, stops: Seq<Stop>) -> Option<
    (usize, u128),
> {
    match minimum_swap(distances, path, stops) {
        Some((j, cost)) => {
            let current = path.cost + path_around(distances, stops, j as int).unwrap().cost;
            if cost < current {
                Some((j, (current - cost) as u128))
            } else {
                None
            }
        },
        None => None,
    }
}

/// The stops after the search has treated position `i`: exchanged with the
/// candidate that `improvement` names, or as they were.
pub open spec fn step(distances: Map<(u32, u32), u64>, stops: Seq<Stop>, i: int) -> Seq<Stop> {
    match path_around(distances, stops, i) {
        Some(path) => match improvement(distances, path, stops) {
            Some((j, _)) => exchanged(stops, i, j as int),
            None => stops,
        },
        None => stops,
    }
}

/// The stops after the search has treated the positions from `i` up to
/// the last but one, in order.
pub open spec fn pass_from(distances: Map<(u32, u32), u64>, stops: Seq<Stop>, i: int) -> Seq<Stop>
    decreases stops.len() - i,
    via pass_from_decreases
{
    if 0 < i && i + 1 < stops.len() {
        pass_from(distances, step(distances, stops, i), i + 1)
    } else {
        stops
    }
}

/// Treating a position leaves the number of stops as it was.
pub proof fn lemma_step_keeps_length(distances: Map<(u32, u32), u64>, stops: Seq<Stop>, i: int)
    requires
        0 < i,
        i + 1 < stops.len(),
    ensures
        step(distances, stops, i).len() == stops.len(),
{
    if let Some(path) = path_around(distances, stops, i) {
        if let Some((j, cost)) = minimum_swap(distances, path, stops) {
            assert(is_minimum_swap(distances, path, stops, j as int, cost));
        }
    }
}

#[via_fn]
proof fn pass_from_decreases(distances: Map<(u32, u32), u64>, stops: Seq<Stop>, i: int) {
    if 0 < i && i + 1 < stops.len() {
        lemma_step_keeps_length(distances, stops, i);
    }
}

/// The stops after one pass of the search over all inner positions, from
/// left to right.
pub open spec fn two_opt_pass(distances: Map<(u32, u32), u64>, stops: Seq<Stop>) -> Seq<Stop> {
    pass_from(distances, stops, 1)
}

/// What the search saves when it treats position `i`: the cost of the two
/// paths now less their cost after the exchange, or nothing if it makes
/// none.
pub open spec fn step_saving(distances: Map<(u32, u32), u64>, stops: Seq<Stop>, i: int) -> nat {
    match path_around(distances, stops, i) {
        Some(path) => match improvement(distances, path, stops) {
            Some((_, saving)) => saving as nat,
            None => 0,
        },
        None => 0,
    }
}

/// A recorded distance after `saving` was taken off it, as far as that
/// goes: it is not lowered below zero.
pub open spec fn lowered(total: u128, saving: int) -> u128 {
    if saving <= 0 {
        total
    } else if saving <= total {
        (total - saving) as u128
    } else {
        0
    }
}

/// Exchanging two stops that are at least two positions apart, neither of
/// them the first or the last, replaces four legs of the path by four
/// others and leaves the rest as it was.
pub proof fn lemma_exchange_length(distances: Map<(u32, u32), u64>, stops: Seq<Stop>, i: int, j: int)
    requires
        0 < i,
        i + 2 <= j,
        j + 1 < stops.len(),
    ensures
        path_length(distances, exchanged(stops, i, j)) + distances[(stops[i - 1].id, stops[i].id)]
            + distances[(stops[i].id, stops[i + 1].id)] + distances[(stops[j - 1].id, stops[j].id)]
            + distances[(stops[j].id, stops[j + 1].id)] == path_length(distances, stops)
            + distances[(stops[i - 1].id, stops[j].id)] + distances[(stops[j].id, stops[i + 1].id)]
            + distances[(stops[j - 1].id, stops[i].id)] + distances[(stops[i].id, stops[j + 1].id)],
        path_known(distances, stops) && distances.contains_key((stops[i - 1].id, stops[j].id))
            && distances.contains_key((stops[j].id, stops[i + 1].id)) && distances.contains_key(
            (stops[j - 1].id, stops[i].id),
        ) && distances.contains_key((stops[i].id, stops[j + 1].id)) ==> path_known(
            distances,
            exchanged(stops, i, j),
        ),
{
    let after = exchanged(stops, i, j);
    let old_legs = legs(distances, stops);
    let n1 = distances[(stops[i - 1].id, stops[j].id)] as nat;
    let n2 = distances[(stops[j].id, stops[i + 1].id)] as nat;
    let n3 = distances[(stops[j - 1].id, stops[i].id)] as nat;
    let n4 = distances[(stops[i].id, stops[j + 1].id)] as nat;
    let l1 = old_legs.update(i - 1, n1);
    let l2 = l1.update(i, n2);
    let l3 = l2.update(j - 1, n3);
    let l4 = l3.update(j, n4);
    lemma_sum_update(old_legs, i - 1, n1);
    lemma_sum_update(l1, i, n2);
    lemma_sum_update(l2, j - 1, n3);
    lemma_sum_update(l3, j, n4);
    assert(leg(stops, i - 1) == (stops[i - 1].id, stops[i].id));
    assert(leg(stops, i) == (stops[i].id, stops[i + 1].id));
    assert(leg(stops, j - 1) == (stops[j - 1].id, stops[j].id));
    assert(leg(stops, j) == (stops[j].id, stops[j + 1].id));
    assert forall|k: int| 0 <= k < after.len() - 1 implies legs(distances, after)[k] == l4[k] by {
        if k != i - 1 && k != i && k != j - 1 && k != j {
            assert(leg(after, k) == leg(stops, k));
        }
    }
    assert(legs(distances, after) =~= l4);
    if path_known(distances, stops) && distances.contains_key((stops[i - 1].id, stops[j].id))
        && distances.contains_key((stops[j].id, stops[i + 1].id)) && distances.contains_key(
        (stops[j - 1].id, stops[i].id),
    ) && distances.contains_key((stops[i].id, stops[j + 1].id)) {
        assert forall|k: int| 0 <= k < after.len() - 1 implies distances.contains_key(
            #[trigger] leg(after, k),
        ) by {
            if k != i - 1 && k != i && k != j - 1 && k != j {
                assert(leg(after, k) == leg(stops, k));
            }
        }
    }
}

/// Treating a position shortens the path by what it saves, and saves
/// something exactly where it changes the stops. It keeps the first and
/// the last stop in place and all stops in the path, and where all
/// distances along the path were known, they still are.
pub proof fn lemma_step_shortens(distances: Map<(u32, u32), u64>, stops: Seq<Stop>, i: int)
    requires
        0 < i,
        i + 1 < stops.len() <= usize::MAX,
    ensures
        path_length(distances, step(distances, stops, i)) + step_saving(distances, stops, i)
            == path_length(distances, stops),
        step(distances, stops, i) == stops <==> step_saving(distances, stops, i) == 0,
        step(distances, stops, i).len() == stops.len(),
        step(distances, stops, i).first() == stops.first(),
        step(distances, stops, i).last() == stops.last(),
        step(distances, stops, i).to_multiset() == stops.to_multiset(),
        path_known(distances, stops) ==> path_known(distances, step(distances, stops, i)),
{
    if let Some(path) = path_around(distances, stops, i) {
        if let Some((j, saving)) = improvement(distances, path, stops) {
            let (k, cost) = minimum_swap(distances, path, stops).unwrap();
            assert(is_minimum_swap(distances, path, stops, j as int, cost));
            if path_known(distances, stops) {
                assert(distances.contains_key(leg(stops, j - 1)));
                assert(distances.contains_key(leg(stops, j as int)));
            }
            lemma_exchange_length(distances, stops, i, j as int);
            lemma_exchanged_permutes(stops, i, j as int);
        }
    }
}

/// A pass makes the path no longer, and leaves its length as it was only
/// where it leaves the stops as they were. It keeps the first and the last
/// stop in place and all stops in the path, and where all distances along
/// the path were known, they still are.
pub proof fn lemma_pass_shortens(distances: Map<(u32, u32), u64>, stops: Seq<Stop>, i: int)
    requires
        0 < i,
        stops.len() <= usize::MAX,
    ensures
        pass_from(distances, stops, i) == stops || path_length(
            distances,
            pass_from(distances, stops, i),
        ) < path_length(distances, stops),
        pass_from(distances, stops, i).len() == stops.len(),
        stops.len() > 0 ==> pass_from(distances, stops, i).first() == stops.first()
            && pass_from(distances, stops, i).last() == stops.last(),
        pass_from(distances, stops, i).to_multiset() == stops.to_multiset(),
        path_known(distances, stops) ==> path_known(distances, pass_from(distances, stops, i)),
    decreases stops.len() - i,
{
    if i + 1 < stops.len() {
        lemma_step_shortens(distances, stops, i);
        lemma_pass_shortens(distances, step(distances, stops, i), i + 1);
    }
}

/// A pass that finds no position to improve leaves the stops as they are.
pub proof fn lemma_pass_without_improvement(distances: Map<(u32, u32), u64>, stops: Seq<Stop>, i: int)
    requires
        0 < i,
        forall|k: int| i <= k && k + 1 < stops.len() ==> #[trigger] step(distances, stops, k) == stops,
    ensures
        pass_from(distances, stops, i) == stops,
    decreases stops.len() - i,
{
    if i + 1 < stops.len() {
        assert(step(distances, stops, i) == stops);
        lemma_pass_without_improvement(distances, stops, i + 1);
    }
}

/// The stops after passes of the search as long as a pass makes the path
/// shorter.
pub open spec fn local_optimum(distances: Map<(u32, u32), u64>, stops: Seq<Stop>) -> Seq<Stop>
    decreases path_length(distances, stops),
{
    let next = two_opt_pass(distances, stops);
    if path_length(distances, next) < path_length(distances, stops) {
        local_optimum(distances, next)
    } else {
        stops
    }
}

/// Where passes of the search end, a further pass changes nothing; the
/// path is no longer than at the start, and holds the same stops with the
/// same first and last.
pub proof fn lemma_local_optimum(distances: Map<(u32, u32), u64>, stops: Seq<Stop>)
    requires
        stops.len() <= usize::MAX,
    ensures
        two_opt_pass(distances, local_optimum(distances, stops)) == local_optimum(distances, stops),
        path_length(distances, local_optimum(distances, stops)) <= path_length(distances, stops),
        local_optimum(distances, stops).len() == stops.len(),
        stops.len() > 0 ==> local_optimum(distances, stops).first() == stops.first()
            && local_optimum(distances, stops).last() == stops.last(),
        local_optimum(distances, stops).to_multiset() == stops.to_multiset(),
        path_known(distances, stops) ==> path_known(distances, local_optimum(distances, stops)),
    decreases path_length(distances, stops),
{
    let next = two_opt_pass(distances, stops);
    lemma_pass_shortens(distances, stops, 1);
    if path_length(distances, next) < path_length(distances, stops) {
        lemma_local_optimum(distances, next);
    }
}

/// A local search that exchanges pairs of stops of a route where that
/// shortens it.
pub struct TwoOptSearcher {
    stop_swapper: StopSwapper,
}

impl TwoOptSearcher {
    /// The distances by which the search measures.
    pub closed spec fn distances(&self) -> Map<(u32, u32), u64> {
        self.stop_swapper.distance_service@
    }

    /// The stops that the search was made for.
    pub closed spec fn stops(&self) -> Seq<Stop> {
        self.stop_swapper.stops@
    }

    /// A search for `stops` that measures by `distances`.
    pub fn new(stops: Vec<Stop>, distances: &DistanceMatrix) -> (searcher: TwoOptSearcher)
        ensures
            searcher.distances() == distances@,
            searcher.stops() == stops@,
    {
        Self { stop_swapper: StopSwapper::new(stops, distances) }
    }

    /// An exchange is made only if it costs less than what is there.
    fn should_swap_stops(swap_cost: u128, current_cost: u128) -> (swap: bool)
        ensures
            swap == (swap_cost < current_cost),
    {
        swap_cost < current_cost
    }

    /// The exchange to make for `path` within `stops`, if there is one:
    /// the position to exchange with, and what the exchange saves.
    fn find_improvements(&self, stops: &[Stop], path: &Path) -> (found: Option<(usize, u128)>)
        requires
            path_is_costed(self.distances(), *path),
        ensures
            found == improvement(self.distances(), *path, stops@),
    {
        let ghost distances = self.distances();
        let (swap_candidate_index, swap_cost) = match self.stop_swapper.get_minimum_swap_cost(
            path,
            stops,
        ) {
            Some(minimum) => minimum,
            None => {
                return None;
            },
        };
        let swap_candidate = Path::from_stop_index(
            stops,
            swap_candidate_index,
            &self.stop_swapper.distance_service,
        ).unwrap();
        let current_cost = path.cost + swap_candidate.cost;
        if Self::should_swap_stops(swap_cost, current_cost) {
            return Some((swap_candidate.current.index, current_cost - swap_cost));
        }
        None
    }

    /// One pass over `route`; returns what the exchanges save together.
    fn pass(&self, route: &mut Route) -> (saved: u128)
        ensures
            final(route)@.stops == two_opt_pass(self.distances(), old(route)@.stops),
            saved == path_length(self.distances(), old(route)@.stops) - path_length(
                self.distances(),
                final(route)@.stops,
            ),
            final(route)@.total_distance == lowered(old(route)@.total_distance, saved as int),
            final(route)@.vehicle == old(route)@.vehicle,
            old(route).measured_by(self.distances()) ==> final(route).measured_by(self.distances()),
            old(route).wf() ==> final(route).wf(),
    {
        let ghost distances = self.distances();
        let len = route.get_stops().len();
        let mut saved: u128 = 0;
        if len < 3 {
            return saved;
        }
        proof {
            lemma_path_length_bound(distances, route@.stops);
            assert(len * u64::MAX <= u128::MAX) by (nonlinear_arith)
                requires
                    len <= u64::MAX,
            ;
        }
        let mut stop_index: usize = 1;
        while stop_index < len - 1
            invariant
                distances == self.distances(),
                len == route@.stops.len(),
                len == old(route)@.stops.len(),
                1 <= stop_index <= len - 1,
                path_length(distances, old(route)@.stops) <= u128::MAX,
                saved + path_length(distances, route@.stops) == path_length(
                    distances,
                    old(route)@.stops,
                ),
                route@.total_distance == lowered(old(route)@.total_distance, saved as int),
                route@.vehicle == old(route)@.vehicle,
                old(route).measured_by(distances) ==> route.measured_by(distances),
                old(route).wf() ==> route.wf(),
                two_opt_pass(distances, old(route)@.stops) == pass_from(
                    distances,
                    route@.stops,
                    stop_index as int,
                ),
            decreases len - stop_index,
        {
            let ghost before = route@.stops;
            proof {
                lemma_step_shortens(distances, before, stop_index as int);
            }
            let path = match Path::from_stop_index(
                route.get_stops().as_slice(),
                stop_index,
                &self.stop_swapper.distance_service,
            ) {
                Some(path) => path,
                None => {
                    stop_index = stop_index + 1;
                    continue ;
                },
            };
            match self.find_improvements(route.get_stops().as_slice(), &path) {
                Some((swap_candidate_index, saving)) => {
                    proof {
                        let (j, cost) = minimum_swap(distances, path, before).unwrap();
                        assert(is_minimum_swap(distances, path, before, j as int, cost));
                    }
                    let base_index = path.current.index;
                    route.swap_stops(base_index, swap_candidate_index);
                    route.lower_total_distance(saving);
                    saved = saved + saving;
                },
                None => {},
            }
            stop_index = stop_index + 1;
        }
        saved
    }

    /// One pass of the search over `route`, from left to right: each inner
    /// stop in turn changes places with the later stop that `improvement`
    /// names, if there is one. A position whose exchange cannot be costed
    /// is passed over. The first and the last stop stay.
    ///
    /// The recorded distance is lowered by what the exchanges save, but
    /// not below zero. What they save is the difference of the path's
    /// length before and after: the legs that stay count the same in both,
    /// so that only the exchanged legs, whose distances are known, make it
    /// up. A route that recorded the length of its path still does so
    /// afterwards.
    pub fn run(&self, route: &mut Route) -> (outcome: Option<()>)
        ensures
            outcome is Some,
            final(route)@.stops == two_opt_pass(self.distances(), old(route)@.stops),
            final(route)@.total_distance == lowered(
                old(route)@.total_distance,
                path_length(self.distances(), old(route)@.stops) - path_length(
                    self.distances(),
                    final(route)@.stops,
                ),
            ),
            final(route)@.total_distance <= old(route)@.total_distance,
            final(route)@.vehicle == old(route)@.vehicle,
            old(route).measured_by(self.distances()) ==> final(route).measured_by(self.distances()),
            final(route)@.stops.to_multiset() == old(route)@.stops.to_multiset(),
            final(route)@.stops.len() == old(route)@.stops.len(),
            old(route)@.stops.len() > 0 ==> final(route)@.stops.first() == old(route)@.stops.first()
                && final(route)@.stops.last() == old(route)@.stops.last(),
            old(route).wf() ==> final(route).wf(),
    {
        let len = route.get_stops().len();
        proof {
            assert(route@.stops.len() == len <= usize::MAX);
            lemma_pass_shortens(self.distances(), route@.stops, 1);
        }
        self.pass(route);
        Some(())
    }

    /// Passes of the search over `route` as long as a pass makes it
    /// shorter, so that a further pass would change nothing. The recorded
    /// distance is lowered by what the exchanges save.
    pub fn search(&self, route: &mut Route) -> (outcome: Option<()>)
        ensures
            outcome is Some,
            final(route)@.stops == local_optimum(self.distances(), old(route)@.stops),
            final(route)@.total_distance == lowered(
                old(route)@.total_distance,
                path_length(self.distances(), old(route)@.stops) - path_length(
                    self.distances(),
                    final(route)@.stops,
                ),
            ),
            final(route)@.total_distance <= old(route)@.total_distance,
            final(route)@.vehicle == old(route)@.vehicle,
            old(route).measured_by(self.distances()) ==> final(route).measured_by(self.distances()),
            final(route)@.stops.to_multiset() == old(route)@.stops.to_multiset(),
            final(route)@.stops.len() == old(route)@.stops.len(),
            old(route)@.stops.len() > 0 ==> final(route)@.stops.first() == old(route)@.stops.first()
                && final(route)@.stops.last() == old(route)@.stops.last(),
            old(route).wf() ==> final(route).wf(),
    {
        let ghost distances = self.distances();
        let len = route.get_stops().len();
        proof {
            assert(route@.stops.len() == len <= usize::MAX);
            lemma_pass_shortens(distances, route@.stops, 1);
            lemma_local_optimum(distances, route@.stops);
        }
        let mut saved = self.pass(route);
        while saved > 0
            invariant
                distances == self.distances(),
                route@.stops.len() == len <= usize::MAX,
                path_length(distances, route@.stops) <= path_length(distances, old(route)@.stops),
                route@.total_distance == lowered(
                    old(route)@.total_distance,
                    path_length(distances, old(route)@.stops) - path_length(
                        distances,
                        route@.stops,
                    ),
                ),
                route@.vehicle == old(route)@.vehicle,
                old(route).measured_by(distances) ==> route.measured_by(distances),
                old(route).wf() ==> route.wf(),
                local_optimum(distances, old(route)@.stops) == if saved > 0 {
                    local_optimum(distances, route@.stops)
                } else {
                    route@.stops
                },
            decreases path_length(distances, route@.stops), saved,
        {
            proof {
                lemma_pass_shortens(distances, route@.stops, 1);
            }
            saved = self.pass(route);
        }
        Some(())
    }
}

} // verus!
