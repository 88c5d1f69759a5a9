//! The cost model of a search: the cost of a step and the estimate of what
//! remains to the goal.

use vstd::prelude::*;
use crate::graph::{MAX_DIST2, Node};

verus! {

/// Step costs and heuristic of a search over items of type `T`. Both are
/// bounded, so that sums over a graph's nodes stay representable.
pub trait Params<T> {
    /// The estimated cost from `on` to `goal`.
    fn heuristic(&self, on: &T, goal: &T) -> (r: u128)
        ensures
            r <= MAX_DIST2,
    ;

    /// The cost of stepping from `on` to its neighbor `next`.
    fn neighbor_dist(&self, on: &T, next: &T) -> (r: u128)
        ensures
            r <= MAX_DIST2,
    ;
}

/// Squared planar distance both as step cost and as heuristic.
pub struct SimpleParams;

impl Params<Node> for SimpleParams {
    fn heuristic(&self, on: &Node, goal: &Node) -> (r: u128) {
        on.location.dist2(goal.location)
    }

    fn neighbor_dist(&self, on: &Node, next: &Node) -> (r: u128) {
        on.location.dist2(next.location)
    }
}

} // verus!
