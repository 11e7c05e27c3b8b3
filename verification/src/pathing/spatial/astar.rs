use vstd::prelude::*;

use crate::graph::Graph;
use crate::pathing::spatial::Heuristic;

verus! {

/// A heuristic-guided search engine over a backend whose payloads can
/// estimate their remaining distance to a goal.
#[verifier::reject_recursive_types(W)]
#[verifier::reject_recursive_types(T)]
pub struct HeuristicPathFinder<W, T, G>(pub G) where T: Heuristic<T, W>, G: Graph<Weight = W, Value = T>;

} // verus!
