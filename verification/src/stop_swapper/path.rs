use vstd::prelude::*;
use crate::domain::stop::Stop;
use crate::services::distance_service::{DistanceService, lookup};
use crate::stop_swapper::path_node::PathNode;

verus! {

/// Three consecutive positions of a sequence of stops, with the distance
/// travelled from the first over the second to the third.
#[derive(Clone, Copy, Debug)]
pub struct Path {
    pub prev: PathNode,
    pub current: PathNode,
    pub next: PathNode,
    pub cost: u128,
}

/// The distance from `prev` over `current` to `next`, if the table holds
/// both legs.
pub open spec fn triple_cost(
    distances: Map<(u32, u32), u64>,
    prev: Stop,
    current: Stop,
    next: Stop,
) -> Option<u128> {
    match (lookup(distances, prev.id, current.id), lookup(distances, current.id, next.id)) {
        (Some(first), Some(second)) => Some((first + second) as u128),
        _ => None,
    }
}

/// The path over three nodes, if the table holds both of its legs.
pub open spec fn path_over(
    distances: Map<(u32, u32), u64>,
    prev: PathNode,
    current: PathNode,
    next: PathNode,
) -> Option<Path> {
    match triple_cost(distances, prev.stop, current.stop, next.stop) {
        Some(cost) => Some(Path { prev, current, next, cost }),
        None => None,
    }
}

/// The path around position `index` of `stops`, if the table holds both of
/// its legs.
pub open spec fn path_around(distances: Map<(u32, u32), u64>, stops: Seq<Stop>, index: int) -> Option<
    Path,
> {
    path_over(
        distances,
        PathNode { index: (index - 1) as usize, stop: stops[index - 1] },
        PathNode { index: index as usize, stop: stops[index] },
        PathNode { index: (index + 1) as usize, stop: stops[index + 1] },
    )
}

impl Path {
    /// The path over three nodes; absent if the distance of one of its two
    /// legs is.
    pub fn new(
        prev: PathNode,
        current: PathNode,
        next: PathNode,
        distance_service: &DistanceService,
    ) -> (path: Option<Path>)
        ensures
            path == path_over(distance_service@, prev, current, next),
    {
        let mut path = Path { prev, current, next, cost: 0 };
        path.cost = path.calculate_cost(distance_service)?;
        Some(path)
    }

    /// The path around an inner position of `stops`.
    pub fn from_stop_index(stops: &[Stop], stop_index: usize, distance_service: &DistanceService) -> (path:
        Option<Path>)
        requires
            0 < stop_index,
            stop_index + 1 < stops@.len(),
        ensures
            path == path_around(distance_service@, stops@, stop_index as int),
    {
        Self::new(
            PathNode::new(stop_index - 1, &stops[stop_index - 1]),
            PathNode::new(stop_index, &stops[stop_index]),
            PathNode::new(stop_index + 1, &stops[stop_index + 1]),
            distance_service,
        )
    }

    /// The distance from the first node over the second to the third.
    fn calculate_cost(&self, distance_service: &DistanceService) -> (cost: Option<u128>)
        ensures
            cost == triple_cost(distance_service@, self.prev.stop, self.current.stop, self.next.stop),
    {
        let first = distance_service.get_distance(&self.prev.stop, &self.current.stop)?;
        let second = distance_service.get_distance(&self.current.stop, &self.next.stop)?;
        Some(first as u128 + second as u128)
    }
}

} // verus!
