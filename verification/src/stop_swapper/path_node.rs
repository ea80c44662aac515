use vstd::prelude::*;
use crate::domain::stop::Stop;

verus! {

/// A stop together with its position in a sequence of stops.
#[derive(Clone, Copy, Debug)]
pub struct PathNode {
    pub index: usize,
    pub stop: Stop,
}

impl PathNode {
    /// The node of `stop` at position `index`.
    pub fn new(index: usize, stop: &Stop) -> (node: PathNode)
        ensures
            node == (PathNode { index, stop: *stop }),
    {
        PathNode { index, stop: *stop }
    }
}

} // verus!
