use vstd::prelude::*;
use crate::domain::stop::Stop;
use crate::services::distance_service::{DistanceMatrix, DistanceService};
use crate::stop_swapper::path::{Path, path_around, triple_cost};

pub mod path;
pub mod path_node;

verus! {

/// What two paths cost together once their middle stops have changed
/// places, the stops before and after each staying where they are; absent
/// if the distance of one of the four new legs is.
pub open spec fn swapped_cost(distances: Map<(u32, u32), u64>, first: Path, second: Path) -> Option<
    u128,
> {
    match (
        triple_cost(distances, first.prev.stop, second.current.stop, first.next.stop),
        triple_cost(distances, second.prev.stop, first.current.stop, second.next.stop),
    ) {
        (Some(a), Some(b)) => Some((a + b) as u128),
        _ => None,
    }
}

/// Whether position `j` of `stops` may change places with the middle of
/// `path`: it lies at least two positions behind it and is not the last.
pub open spec fn is_candidate(path: Path, stops: Seq<Stop>, j: int) -> bool {
    path.current.index + 2 <= j && j + 1 < stops.len()
}

/// What `path` and the path around position `j` of `stops` cost together
/// once their middle stops have changed places; absent if the distance of
/// a leg of the path around `j`, or of one of the four new legs, is.
pub open spec fn candidate_cost(
    distances: Map<(u32, u32), u64>,
    path: Path,
    stops: Seq<Stop>,
    j: int,
) -> Option<u128> {
    match path_around(distances, stops, j) {
        Some(candidate) => swapped_cost(distances, path, candidate),
        None => None,
    }
}

/// Whether the cost of the exchange with every candidate can be computed.
pub open spec fn candidates_known(distances: Map<(u32, u32), u64>, path: Path, stops: Seq<Stop>) -> bool {
    forall|j: int| #[trigger]
        is_candidate(path, stops, j) ==> candidate_cost(distances, path, stops, j) is Some
}

/// Whether `j` is the first candidate of least cost, and `cost` that cost.
pub open spec fn is_minimum_swap(
    distances: Map<(u32, u32), u64>,
    path: Path,
    stops: Seq<Stop>,
    j: int,
    cost: u128,
) -> bool {
    &&& is_candidate(path, stops, j)
    &&& candidates_known(distances, path, stops)
    &&& candidate_cost(distances, path, stops, j) == Some(cost)
    &&& forall|k: int| #[trigger]
        is_candidate(path, stops, k) ==> cost <= candidate_cost(distances, path, stops, k).unwrap()
    &&& forall|k: int| #[trigger]
        is_candidate(path, stops, k) && k < j ==> cost < candidate_cost(
            distances,
            path,
            stops,
            k,
        ).unwrap()
}

/// The first candidate of least cost and that cost; absent if there is no
/// candidate, or if the exchange with one of the candidates cannot be
/// costed.
pub open spec fn minimum_swap(distances: Map<(u32, u32), u64>, path: Path, stops: Seq<Stop>) -> Option<
    (usize, u128),
> {
    if exists|j: usize, cost: u128| is_minimum_swap(distances, path, stops, j as int, cost) {
        Some(choose|j: usize, cost: u128| is_minimum_swap(distances, path, stops, j as int, cost))
    } else {
        None
    }
}

/// There is at most one first candidate of least cost.
pub proof fn lemma_minimum_swap_unique(
    distances: Map<(u32, u32), u64>,
    path: Path,
    stops: Seq<Stop>,
    j1: int,
    cost1: u128,
    j2: int,
    cost2: u128,
)
    requires
        is_minimum_swap(distances, path, stops, j1, cost1),
        is_minimum_swap(distances, path, stops, j2, cost2),
    ensures
        j1 == j2,
        cost1 == cost2,
{
}

/// Evaluates what exchanging two stops of a sequence would cost.
pub struct StopSwapper {
    pub stops: Vec<Stop>,
    pub distance_service: DistanceService,
}

impl StopSwapper {
    /// A swapper for `stops` that measures by `distances`.
    pub fn new(stops: Vec<Stop>, distances: &DistanceMatrix) -> (swapper: StopSwapper)
        ensures
            swapper.stops == stops,
            swapper.distance_service@ == distances@,
    {
        StopSwapper { stops, distance_service: DistanceService::new(distances.clone()) }
    }

    /// What the two paths cost together once their middle stops have
    /// changed places.
    pub fn calculate_swap_cost(&self, path1: &Path, path2: &Path) -> (cost: Option<u128>)
        ensures
            cost == swapped_cost(self.distance_service@, *path1, *path2),
    {
        let first = Path::new(path1.prev, path2.current, path1.next, &self.distance_service)?;
        let second = Path::new(path2.prev, path1.current, path2.next, &self.distance_service)?;
        Some(first.cost + second.cost)
    }

    /// The candidate of `stops` with which the middle of `path` changes
    /// places at the least cost, and that cost. Of several candidates of
    /// least cost it is the first. Absent if there is no candidate, or if
    /// the exchange with one of the candidates cannot be costed.
    pub fn get_minimum_swap_cost(&self, path: &Path, stops: &[Stop]) -> (minimum: Option<
        (usize, u128),
    >)
        ensures
            minimum == minimum_swap(self.distance_service@, *path, stops@),
            minimum is Some <==> candidates_known(self.distance_service@, *path, stops@) && exists|
                j: int,
            |
                is_candidate(*path, stops@, j),
    {
        let ghost distances = self.distance_service@;
        let len = stops.len();
        let index = path.current.index;
        if len < 4 || index > len - 4 {
            assert(forall|j: int| !is_candidate(*path, stops@, j));
            return None;
        }
        let mut j = index + 2;
        assert(is_candidate(*path, stops@, j as int));
        let mut best = match self.cost_candidate(path, stops, j) {
            Some(cost) => (j, cost),
            None => {
                return None;
            },
        };
        j = j + 1;
        while j < len - 1
            invariant
                len == stops@.len(),
                index == path.current.index,
                index + 2 < j <= len - 1,
                index + 2 <= best.0 < j,
                candidate_cost(self.distance_service@, *path, stops@, best.0 as int) == Some(best.1),
                forall|k: int| #[trigger]
                    is_candidate(*path, stops@, k) && k < j ==> {
                        &&& candidate_cost(self.distance_service@, *path, stops@, k) is Some
                        &&& best.1 <= candidate_cost(self.distance_service@, *path, stops@, k).unwrap()
                        &&& k < best.0 ==> best.1 < candidate_cost(
                            self.distance_service@,
                            *path,
                            stops@,
                            k,
                        ).unwrap()
                    },
            decreases len - j,
        {
            assert(is_candidate(*path, stops@, j as int));
            match self.cost_candidate(path, stops, j) {
                Some(cost) => {
                    if cost < best.1 {
                        best = (j, cost);
                    }
                },
                None => {
                    return None;
                },
            }
            j = j + 1;
        }
        proof {
            assert(is_candidate(*path, stops@, best.0 as int));
            assert(is_minimum_swap(distances, *path, stops@, best.0 as int, best.1));
            let (j, cost) = choose|j: usize, cost: u128|
                is_minimum_swap(distances, *path, stops@, j as int, cost);
            lemma_minimum_swap_unique(distances, *path, stops@, j as int, cost, best.0 as int, best.1);
        }
        Some(best)
    }

    /// What exchanging the middle of `path` with the stop at position `j`
    /// costs.
    fn cost_candidate(&self, path: &Path, stops: &[Stop], j: usize) -> (cost: Option<u128>)
        requires
            0 < j,
            j + 1 < stops@.len(),
        ensures
            cost == candidate_cost(self.distance_service@, *path, stops@, j as int),
    {
        let candidate = Path::from_stop_index(stops, j, &self.distance_service)?;
        self.calculate_swap_cost(path, &candidate)
    }
}

} // verus!
