use vstd::prelude::*;

use crate::node::Node;

pub use crate::pathing::spatial::astar::HeuristicPathFinder;

mod astar;

verus! {

/// An estimate of the remaining distance between two nodes, supplied by the
/// caller for heuristic-guided searches.
pub trait Heuristic<T, W> {
    fn get_heuristic_value(&self, node1: &Node<T>, node2: &Node<T>) -> W;
}

/// A payload that can measure its distance to another of its kind.
pub trait Location<W> {
    fn distance_to(&self, other: &Self) -> W;
}

} // verus!
